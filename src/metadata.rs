//! The metadata envelope: name, piece length, piece digests, file list and
//! the info-hash that identifies the swarm.

use vstd::prelude::*;
use vstd::string::{StringSliceAdditionalSpecFns, StringExecFns};
use crate::canonical::{canonical_info, encode_info};
use crate::crypto::{digest_hex, sha256_hex};
use crate::error::{BitSwapError, BitSwapResult, append_decimal, message, torrent_message};

verus! {

/// `serde_json::Value`, a value of the extension map; carried without looking inside.
#[verifier::external_type_specification]
#[verifier::external_body]
pub struct ExJsonValue(serde_json::Value);

/// One file of a torrent.
#[derive(Debug, Clone)]
pub struct FileEntry {
    /// Path components relative to the torrent root.
    pub path: Vec<String>,
    /// Length in bytes.
    pub length: u64,
    /// Optional digest of the whole file; not used to verify pieces.
    pub file_hash: Option<String>,
}

/// The metadata of a torrent.
#[derive(Debug, Clone)]
pub struct BitSwapMetadata {
    /// Torrent name.
    pub name: String,
    /// Creating client.
    pub created_by: String,
    /// Creation time, `YYYY-MM-DDTHH:MM:SSZ`.
    pub created_at: String,
    /// Piece length in bytes.
    pub piece_length: u32,
    /// Lowercase hexadecimal SHA-256 digest of each piece.
    pub pieces: Vec<String>,
    /// Files, in the order their bytes are laid out.
    pub files: Vec<FileEntry>,
    /// Lowercase hexadecimal SHA-256 digest of the canonical info encoding.
    pub info_hash: String,
    /// Tracker URLs.
    pub trackers: Vec<String>,
    /// Web seed URLs.
    pub web_seed: Vec<String>,
    /// Extension fields, carried unchanged.
    pub extra: std::collections::HashMap<String, serde_json::Value>,
}

/// Sum of the first `k` file lengths: the offset where file `k` starts.
pub open spec fn file_start(files: Seq<FileEntry>, k: int) -> int
    decreases k,
{
    if k <= 0 {
        0
    } else {
        file_start(files, k - 1) + files[k - 1].length
    }
}

/// Sum of all file lengths.
pub open spec fn total_of(files: Seq<FileEntry>) -> int {
    file_start(files, files.len() as int)
}

/// Size of piece `p` of a torrent of `total` bytes cut in pieces of `l`
/// bytes: `l`, less for the last piece, zero past the end.
pub open spec fn piece_size_of(total: int, l: int, p: int) -> int {
    if p * l + l <= total {
        l
    } else if p * l < total {
        total - p * l
    } else {
        0
    }
}

/// Number of pieces of `l` bytes that `total` bytes need.
pub open spec fn pieces_needed(total: int, l: int) -> int {
    (total + l - 1) / l
}

/// Whether text is 64 lowercase hexadecimal characters.
pub open spec fn is_piece_hash_text(t: Seq<char>) -> bool {
    t.len() == 64 && forall|i: int|
        0 <= i < 64 ==> ('0' <= #[trigger] t[i] <= '9' || 'a' <= t[i] <= 'f')
}

pub proof fn lemma_file_start_monotonic(files: Seq<FileEntry>, j: int, k: int)
    requires
        0 <= j <= k,
    ensures
        file_start(files, j) <= file_start(files, k),
    decreases k - j,
{
    if j < k {
        lemma_file_start_monotonic(files, j, k - 1);
    }
}

impl BitSwapMetadata {
    /// Sum of the file lengths.
    pub open spec fn total(&self) -> int {
        total_of(self.files@)
    }

    /// Size of piece `p`.
    pub open spec fn piece_size(&self, p: int) -> int {
        piece_size_of(self.total(), self.piece_length as int, p)
    }

    /// What a well-formed envelope holds: a name, at least one piece and one
    /// file, a positive piece length, a lowercase 64-digit digest per piece,
    /// exactly as many pieces as the total size needs, and sizes that fit
    /// machine integers.
    pub open spec fn wf(&self) -> bool {
        &&& self.name@.len() > 0
        &&& self.pieces@.len() > 0
        &&& self.files@.len() > 0
        &&& self.piece_length > 0
        &&& forall|i: int| 0 <= i < self.pieces@.len() ==> is_piece_hash_text(#[trigger] self.pieces@[i]@)
        &&& self.total() <= u64::MAX
        &&& self.pieces@.len() <= u32::MAX
        &&& self.pieces@.len() == pieces_needed(self.total(), self.piece_length as int)
    }

    /// Sum of the file lengths.
    pub fn total_size(&self) -> (r: u64)
        requires
            self.total() <= u64::MAX,
        ensures
            r == self.total(),
    {
        let mut sum: u64 = 0;
        let mut k: usize = 0;
        while k < self.files.len()
            invariant
                0 <= k <= self.files@.len(),
                sum == file_start(self.files@, k as int),
                self.total() <= u64::MAX,
            decreases self.files@.len() - k,
        {
            proof {
                lemma_file_start_monotonic(self.files@, k + 1, self.files@.len() as int);
            }
            sum = sum + self.files[k].length;
            k = k + 1;
        }
        sum
    }

    /// Sum of the file lengths, or `None` when it does not fit 64 bits.
    pub fn checked_total_size(&self) -> (r: Option<u64>)
        ensures
            r is Some <==> self.total() <= u64::MAX,
            r is Some ==> r->Some_0 == self.total(),
    {
        let mut sum: u64 = 0;
        let mut k: usize = 0;
        while k < self.files.len()
            invariant
                0 <= k <= self.files@.len(),
                sum == file_start(self.files@, k as int),
            decreases self.files@.len() - k,
        {
            if sum > u64::MAX - self.files[k].length {
                proof {
                    lemma_file_start_monotonic(self.files@, k + 1, self.files@.len() as int);
                }
                return None;
            }
            sum = sum + self.files[k].length;
            k = k + 1;
        }
        Some(sum)
    }

    /// Number of pieces.
    pub fn piece_count(&self) -> (r: u32)
        requires
            self.pieces@.len() <= u32::MAX,
        ensures
            r == self.pieces@.len(),
    {
        self.pieces.len() as u32
    }

    /// Checks the envelope: fails with a metadata error naming the first
    /// violated rule of `wf`.
    pub fn validate(&self) -> (r: BitSwapResult<()>)
        ensures
            r is Ok <==> self.wf(),
            r is Err ==> r->Err_0 is Metadata,
    {
        if self.name.as_str().is_empty() {
            return Err(BitSwapError::Metadata(message("empty name")));
        }
        let name = self.name.as_str();
        if self.pieces.len() == 0 {
            return Err(BitSwapError::Metadata(torrent_message(name, "no pieces")));
        }
        if self.files.len() == 0 {
            return Err(BitSwapError::Metadata(torrent_message(name, "no files")));
        }
        if self.piece_length == 0 {
            return Err(BitSwapError::Metadata(torrent_message(name, "piece length must be positive")));
        }
        let mut i: usize = 0;
        while i < self.pieces.len()
            invariant
                0 <= i <= self.pieces@.len(),
                forall|j: int| 0 <= j < i ==> is_piece_hash_text(#[trigger] self.pieces@[j]@),
            decreases self.pieces@.len() - i,
        {
            if !is_piece_hash(self.pieces[i].as_str()) {
                let mut m = torrent_message(name, "hash of piece ");
                append_decimal(&mut m, i as u64);
                m.append(" is not 64 lowercase hexadecimal digits: ");
                m.append(self.pieces[i].as_str());
                return Err(BitSwapError::Metadata(m));
            }
            i = i + 1;
        }
        let total = match self.checked_total_size() {
            Some(t) => t,
            None => {
                return Err(BitSwapError::Metadata(torrent_message(name, "total size does not fit 64 bits")));
            },
        };
        if self.pieces.len() > u32::MAX as usize {
            return Err(BitSwapError::Metadata(torrent_message(name, "more pieces than 32 bits can index")));
        }
        let l = self.piece_length as u64;
        let q = total / l;
        let r = total % l;
        proof {
            lemma_pieces_needed(total as int, l as int);
            vstd::arithmetic::div_mod::lemma_fundamental_div_mod(total as int, l as int);
            assert(r > 0 ==> q < u64::MAX) by (nonlinear_arith)
                requires
                    l * q + r == total,
                    l >= 1,
                    q >= 0,
                    total <= u64::MAX,
            ;
        }
        let needed = if r == 0 {
            q
        } else {
            q + 1
        };
        if self.pieces.len() as u64 != needed {
            let mut m = torrent_message(name, "");
            append_decimal(&mut m, self.pieces.len() as u64);
            m.append(" pieces listed where the total size needs ");
            append_decimal(&mut m, needed);
            return Err(BitSwapError::Metadata(m));
        }
        Ok(())
    }
}

pub proof fn lemma_pieces_needed(total: int, l: int)
    requires
        total >= 0,
        l > 0,
    ensures
        pieces_needed(total, l) == total / l + if total % l == 0 {
            0int
        } else {
            1int
        },
{
    vstd::arithmetic::div_mod::lemma_fundamental_div_mod(total, l);
    vstd::arithmetic::div_mod::lemma_fundamental_div_mod(total + l - 1, l);
    let q = total / l;
    let r = total % l;
    if r == 0 {
        assert(total + l - 1 == q * l + (l - 1)) by (nonlinear_arith)
            requires
                total == l * q + r,
                r == 0,
        ;
        assert((total + l - 1) / l == q) by {
            vstd::arithmetic::div_mod::lemma_fundamental_div_mod_converse(total + l - 1, l, q, l - 1);
        }
    } else {
        assert(total + l - 1 == (q + 1) * l + (r - 1)) by (nonlinear_arith)
            requires
                total == l * q + r,
        ;
        assert((total + l - 1) / l == q + 1) by {
            vstd::arithmetic::div_mod::lemma_fundamental_div_mod_converse(total + l - 1, l, q + 1, r - 1);
        }
    }
}

/// Whether text is 64 lowercase hexadecimal digits.
fn is_piece_hash(t: &str) -> (r: bool)
    ensures
        r == is_piece_hash_text(t@),
{
    proof {
        vstd::string::axiom_spec_iter(t);
    }
    let mut n: usize = 0;
    let mut too_long = false;
    let mut ok = true;
    for c in it: t.chars()
        invariant
            it.seq() == t@,
            n == if it.index() <= 64 {
                it.index()
            } else {
                64
            },
            too_long == (it.index() > 64),
            ok == (forall|i: int|
                0 <= i < it.index() ==> ('0' <= #[trigger] t@[i] <= '9' || 'a' <= t@[i] <= 'f')),
    {
        if !(('0' <= c && c <= '9') || ('a' <= c && c <= 'f')) {
            ok = false;
        }
        if n < 64 {
            n = n + 1;
        } else {
            too_long = true;
        }
    }
    ok && !too_long && n == 64
}


/// Creation time text (`YYYY-MM-DDTHH:MM:SSZ`, UTC) of a Unix time in seconds, as `chrono` formats it.
pub uninterp spec fn utc_timestamp_text(secs: i64) -> Seq<char>;

/// Relies on `std::time::SystemTime::now`: seconds since the Unix epoch, zero
/// when the clock is set before it.
#[verifier::external_body]
fn unix_now() -> (r: u64) {
    match std::time::SystemTime::now().duration_since(std::time::UNIX_EPOCH) {
        Ok(d) => d.as_secs(),
        Err(_) => 0,
    }
}

/// Relies on `chrono::DateTime::from_timestamp` and its `format`: the UTC
/// time of `secs` as `YYYY-MM-DDTHH:MM:SSZ`, or `None` out of chrono's range.
#[verifier::external_body]
fn format_utc_timestamp(secs: i64) -> (r: Option<String>)
    ensures
        r is Some ==> r->Some_0@ == utc_timestamp_text(secs),
{
    match chrono::DateTime::from_timestamp(secs, 0) {
        Some(t) => Some(t.format("%Y-%m-%dT%H:%M:%SZ").to_string()),
        None => None,
    }
}

/// Whether a byte is kept as it is by URL encoding.
pub open spec fn is_url_safe(c: u8) -> bool {
    (48 <= c <= 57) || (65 <= c <= 90) || (97 <= c <= 122) || c == 45 || c == 46 || c == 95
        || c == 126
}

/// Uppercase hexadecimal digit of a value below 16.
pub open spec fn upper_hex_digit(n: u8) -> char {
    if n < 10 {
        ((n + 48) as u8) as char
    } else {
        ((n + 55) as u8) as char
    }
}

/// URL encoding of bytes: alphanumerics and `-`, `.`, `_`, `~` kept, every
/// other byte written `%XX` with uppercase digits.
pub open spec fn url_encode(b: Seq<u8>) -> Seq<char>
    decreases b.len(),
{
    if b.len() == 0 {
        Seq::empty()
    } else {
        url_encode(b.drop_last()) + if is_url_safe(b.last()) {
            seq![b.last() as char]
        } else {
            seq!['%', upper_hex_digit(b.last() / 16), upper_hex_digit(b.last() % 16)]
        }
    }
}

/// Relies on `urlencoding::encode`: it percent-encodes every byte of the
/// UTF-8 text except alphanumerics and `-`, `.`, `_`, `~`, with uppercase digits.
#[verifier::external_body]
fn url_encode_str(s: &str) -> (r: String)
    ensures
        r@ == url_encode(s.spec_bytes()),
{
    urlencoding::encode(s).into_owned()
}

/// One magnet parameter per item: `key` then the URL-encoded item.
pub open spec fn magnet_params(key: Seq<char>, items: Seq<String>) -> Seq<char>
    decreases items.len(),
{
    if items.len() == 0 {
        Seq::empty()
    } else {
        magnet_params(key, items.drop_last()) + key + url_encode(
            encode_utf8_of(items.last()@),
        )
    }
}

/// UTF-8 bytes of text.
pub open spec fn encode_utf8_of(s: Seq<char>) -> Seq<u8> {
    vstd::utf8::encode_utf8(s)
}

/// The magnet link of a torrent.
pub open spec fn magnet_of(m: BitSwapMetadata) -> Seq<char> {
    "magnet:?xt=urn:btih:"@ + m.info_hash@ + "&dn="@ + url_encode(encode_utf8_of(m.name@))
        + magnet_params("&tr="@, m.trackers@) + magnet_params("&ws="@, m.web_seed@)
}

/// Appends one parameter per item.
fn append_params(out: &mut String, key: &str, items: &Vec<String>)
    ensures
        final(out)@ == old(out)@ + magnet_params(key@, items@),
{
    let mut i: usize = 0;
    while i < items.len()
        invariant
            0 <= i <= items@.len(),
            out@ == old(out)@ + magnet_params(key@, items@.take(i as int)),
        decreases items@.len() - i,
    {
        out.append(key);
        let encoded = url_encode_str(items[i].as_str());
        out.append(encoded.as_str());
        assert(items@.take(i + 1).drop_last() =~= items@.take(i as int));
        assert(out@ =~= old(out)@ + magnet_params(key@, items@.take(i + 1)));
        i = i + 1;
    }
    assert(items@.take(items@.len() as int) =~= items@);
}

/// Digests of the pieces of `d` cut in pieces of `l` bytes, front to back,
/// the last piece possibly shorter.
pub open spec fn piece_hashes(d: Seq<u8>, l: nat) -> Seq<Seq<char>>
    decreases d.len(),
{
    if d.len() == 0 || l == 0 {
        Seq::empty()
    } else if d.len() <= l {
        seq![digest_hex(d)]
    } else {
        seq![digest_hex(d.take(l as int))] + piece_hashes(d.skip(l as int), l)
    }
}

/// The text of each string.
pub open spec fn texts(v: Seq<String>) -> Seq<Seq<char>> {
    v.map_values(|s: String| s@)
}

proof fn lemma_piece_hashes_append(h: Seq<u8>, c: Seq<u8>, l: nat)
    requires
        l > 0,
        (h.len() as int) % (l as int) == 0,
        0 < c.len() <= l,
    ensures
        piece_hashes(h + c, l) == piece_hashes(h, l).push(digest_hex(c)),
    decreases h.len(),
{
    if h.len() == 0 {
        assert(h + c =~= c);
    } else {
        assert(h.len() >= l) by {
            vstd::arithmetic::div_mod::lemma_mod_self_0(l as int);
            if h.len() < l {
                vstd::arithmetic::div_mod::lemma_small_mod(h.len() as nat, l);
            }
        }
        let hc = h + c;
        assert(hc.take(l as int) =~= h.take(l as int));
        assert(hc.skip(l as int) =~= h.skip(l as int) + c);
        assert((h.len() - l) % (l as int) == 0) by {
            vstd::arithmetic::div_mod::lemma_mod_sub_multiples_vanish(h.len() as int, l as int);
        }
        lemma_piece_hashes_append(h.skip(l as int), c, l);
        if h.len() == l {
            assert(h.skip(l as int) =~= Seq::<u8>::empty());
            assert(h.take(l as int) =~= h);
            assert(h.skip(l as int) + c =~= c);
        }
    }
}

/// Splits a stream of bytes into pieces and computes their digests, whatever
/// the sizes of the chunks it is fed.
pub struct PieceHasher {
    piece_length: u32,
    buffer: Vec<u8>,
    pieces: Vec<String>,
    hashed: Ghost<Seq<u8>>,
}

impl PieceHasher {
    /// Whether the state is consistent: the completed pieces are the digests
    /// of whole pieces, and the buffer holds the start of the next one.
    pub closed spec fn wf(&self) -> bool {
        &&& self.piece_length > 0
        &&& (self.hashed@.len() as int) % (self.piece_length as int) == 0
        &&& self.buffer@.len() < self.piece_length
        &&& texts(self.pieces@) == piece_hashes(self.hashed@, self.piece_length as nat)
    }

    /// All bytes fed so far.
    pub closed spec fn absorbed(&self) -> Seq<u8> {
        self.hashed@ + self.buffer@
    }

    /// The piece length.
    pub closed spec fn spec_piece_length(&self) -> u32 {
        self.piece_length
    }

    /// A hasher for pieces of `piece_length` bytes.
    pub fn new(piece_length: u32) -> (r: Self)
        requires
            piece_length > 0,
        ensures
            r.wf(),
            r.absorbed() == Seq::<u8>::empty(),
            r.spec_piece_length() == piece_length,
    {
        let r = PieceHasher {
            piece_length,
            buffer: Vec::new(),
            pieces: Vec::new(),
            hashed: Ghost(Seq::empty()),
        };
        assert(texts(r.pieces@) =~= piece_hashes(Seq::empty(), piece_length as nat));
        assert(r.absorbed() =~= Seq::<u8>::empty());
        r
    }

    /// Feeds the next bytes of the stream.
    pub fn update(&mut self, data: &[u8])
        requires
            old(self).wf(),
        ensures
            final(self).wf(),
            final(self).absorbed() == old(self).absorbed() + data@,
            final(self).spec_piece_length() == old(self).spec_piece_length(),
    {
        let l = self.piece_length as usize;
        let n = data.len();
        let mut off: usize = 0;
        while off < n
            invariant
                n == data@.len(),
                0 <= off <= n,
                self.wf(),
                l == self.piece_length,
                self.piece_length == old(self).piece_length,
                self.absorbed() == old(self).absorbed() + data@.take(off as int),
            decreases n - off,
        {
            let space = l - self.buffer.len();
            let take = if n - off < space {
                n - off
            } else {
                space
            };
            let ghost before = self.absorbed();
            crate::be_bytes::put_bytes(&mut self.buffer, &data[off..off + take]);
            assert(data@.take((off + take) as int) =~= data@.take(off as int) + data@.subrange(
                off as int,
                (off + take) as int,
            ));
            assert(self.absorbed() =~= before + data@.subrange(off as int, (off + take) as int));
            if self.buffer.len() == l {
                let digest = sha256_hex(self.buffer.as_slice());
                proof {
                    lemma_piece_hashes_append(self.hashed@, self.buffer@, l as nat);
                    assert(texts(self.pieces@.push(digest)) =~= texts(self.pieces@).push(digest@));
                    vstd::arithmetic::div_mod::lemma_mod_adds(
                        self.hashed@.len() as int,
                        l as int,
                        l as int,
                    );
                    vstd::arithmetic::div_mod::lemma_mod_self_0(l as int);
                }
                self.pieces.push(digest);
                self.hashed = Ghost(self.hashed@ + self.buffer@);
                self.buffer = Vec::new();
                assert(self.absorbed() =~= before + data@.subrange(off as int, (off + take) as int));
            }
            assert(self.absorbed() =~= old(self).absorbed() + data@.take((off + take) as int));
            off = off + take;
        }
        assert(data@.take(n as int) =~= data@);
    }

    /// The digests of all pieces of the stream, the last possibly shorter.
    pub fn finish(self) -> (r: Vec<String>)
        requires
            self.wf(),
        ensures
            texts(r@) == piece_hashes(self.absorbed(), self.spec_piece_length() as nat),
    {
        let mut pieces = self.pieces;
        if self.buffer.len() > 0 {
            let digest = sha256_hex(self.buffer.as_slice());
            proof {
                lemma_piece_hashes_append(self.hashed@, self.buffer@, self.piece_length as nat);
                assert(texts(pieces@.push(digest)) =~= texts(pieces@).push(digest@));
            }
            pieces.push(digest);
        } else {
            assert(self.absorbed() =~= self.hashed@);
        }
        pieces
    }
}

/// The digest list of a stream has one entry per piece, and entry `i` is the
/// digest of bytes `[i * l, min((i + 1) * l, len))`.
pub proof fn lemma_piece_hashes_index(d: Seq<u8>, l: nat, i: int)
    requires
        l > 0,
        0 <= i,
        i * l < d.len(),
    ensures
        i < piece_hashes(d, l).len(),
        piece_hashes(d, l)[i] == digest_hex(
            d.subrange(i * l, if i * l + l <= d.len() { i * l + l } else { d.len() as int }),
        ),
    decreases d.len(),
{
    if d.len() <= l {
        assert(i == 0) by (nonlinear_arith)
            requires
                i * l < d.len(),
                d.len() <= l,
                i >= 0,
                l > 0,
        ;
        assert(d.subrange(0, d.len() as int) =~= d);
    } else if i == 0 {
        assert(d.subrange(0, l as int) =~= d.take(l as int));
    } else {
        let r = d.skip(l as int);
        let j = i - 1;
        assert(j * l == i * l - l) by (nonlinear_arith)
            requires
                j == i - 1,
        ;
        assert(j >= 0);
        lemma_piece_hashes_index(r, l, j);
        let end = if i * l + l <= d.len() { i * l + l } else { d.len() as int };
        assert(r.subrange(j * l, if j * l + l <= r.len() { j * l + l } else { r.len() as int })
            =~= d.subrange(i * l, end));
    }
}

/// A freshly written torrent opens complete. When the metadata's pieces are
/// the digests of the torrent's bytes (as `PieceHasher` computes them from the
/// files' contents in order), the bytes of every piece, taken from those
/// contents at the piece's offset and size, hash to the recorded digest: so
/// `verify_piece_on_disk` marks every piece verified.
pub proof fn lemma_fresh_torrent_verifies(m: BitSwapMetadata, content: Seq<u8>)
    requires
        m.piece_length > 0,
        content.len() == m.total(),
        m.pieces@.len() == pieces_needed(m.total(), m.piece_length as int),
        texts(m.pieces@) == piece_hashes(content, m.piece_length as nat),
    ensures
        forall|i: int|
            0 <= i < m.pieces@.len() ==> digest_hex(
                content.subrange(i * m.piece_length, i * m.piece_length + m.piece_size(i)),
            ) == (#[trigger] m.pieces@[i])@,
{
    let l = m.piece_length as int;
    let t = m.total();
    assert forall|i: int| 0 <= i < m.pieces@.len() implies digest_hex(
        content.subrange(i * m.piece_length, i * m.piece_length + m.piece_size(i)),
    ) == (#[trigger] m.pieces@[i])@ by {
        lemma_pieces_needed(t, l);
        vstd::arithmetic::div_mod::lemma_fundamental_div_mod(t, l);
        assert(i * l < t) by (nonlinear_arith)
            requires
                0 <= i,
                i < t / l + if t % l == 0 { 0int } else { 1int },
                t == l * (t / l) + t % l,
                0 <= t % l < l,
                l > 0,
        ;
        lemma_piece_hashes_index(content, l as nat, i);
        assert(texts(m.pieces@)[i] == m.pieces@[i]@);
    }
}

impl BitSwapMetadata {
    /// Empty metadata for a torrent, stamped with this client and the current time.
    pub fn new(name: String, piece_length: u32) -> (r: Self)
        ensures
            r.name == name,
            r.piece_length == piece_length,
            r.created_by@ == crate::NAME@ + "/"@ + crate::VERSION@,
            r.pieces@.len() == 0,
            r.files@.len() == 0,
            r.info_hash@.len() == 0,
            r.trackers@.len() == 0,
            r.web_seed@.len() == 0,
            r.extra@ == Map::<String, serde_json::Value>::empty(),
    {
        let now = unix_now();
        let created_at = if now <= i64::MAX as u64 {
            match format_utc_timestamp(now as i64) {
                Some(t) => t,
                None => String::new(),
            }
        } else {
            String::new()
        };
        let mut created_by = message(crate::NAME);
        created_by.append("/");
        created_by.append(crate::VERSION);
        BitSwapMetadata {
            name,
            created_by,
            created_at,
            piece_length,
            pieces: Vec::new(),
            files: Vec::new(),
            info_hash: String::new(),
            trackers: Vec::new(),
            web_seed: Vec::new(),
            extra: std::collections::HashMap::new(),
        }
    }

    /// Sets the info-hash: the lowercase hexadecimal SHA-256 digest of the
    /// canonical encoding of name, piece length, pieces and files.
    pub fn calculate_info_hash(&mut self)
        ensures
            final(self).info_hash@ == digest_hex(
                canonical_info(old(self).name@, old(self).piece_length, old(self).pieces@, old(self).files@),
            ),
            final(self).name == old(self).name,
            final(self).created_by == old(self).created_by,
            final(self).created_at == old(self).created_at,
            final(self).piece_length == old(self).piece_length,
            final(self).pieces == old(self).pieces,
            final(self).files == old(self).files,
            final(self).trackers == old(self).trackers,
            final(self).web_seed == old(self).web_seed,
            final(self).extra == old(self).extra,
    {
        let info = encode_info(self.name.as_str(), self.piece_length, &self.pieces, &self.files);
        self.info_hash = sha256_hex(info.as_slice());
    }

    /// Metadata for files whose pieces were hashed: requires a name, at least
    /// one file and at least one piece, else a metadata error; computes the
    /// info-hash.
    pub fn from_parts(
        name: String,
        piece_length: u32,
        files: Vec<FileEntry>,
        pieces: Vec<String>,
    ) -> (r: BitSwapResult<Self>)
        ensures
            r is Ok <==> name@.len() > 0 && files@.len() > 0 && pieces@.len() > 0,
            r is Err ==> r->Err_0 is Metadata,
            r is Ok ==> ({
                let m = r->Ok_0;
                &&& m.name == name
                &&& m.piece_length == piece_length
                &&& m.files == files
                &&& m.pieces == pieces
                &&& m.trackers@.len() == 0
                &&& m.web_seed@.len() == 0
                &&& m.info_hash@ == digest_hex(canonical_info(name@, piece_length, pieces@, files@))
            }),
    {
        if name.as_str().is_empty() {
            return Err(BitSwapError::Metadata(message("empty name")));
        }
        if files.len() == 0 {
            return Err(BitSwapError::Metadata(torrent_message(name.as_str(), "no files found")));
        }
        if pieces.len() == 0 {
            return Err(BitSwapError::Metadata(torrent_message(name.as_str(), "no pieces")));
        }
        let mut m = BitSwapMetadata::new(name, piece_length);
        m.files = files;
        m.pieces = pieces;
        m.calculate_info_hash();
        Ok(m)
    }

    /// The magnet link: info-hash, URL-encoded name, then each tracker and
    /// each web seed, URL-encoded.
    pub fn to_magnet_url(&self) -> (r: String)
        ensures
            r@ == magnet_of(*self),
    {
        let mut magnet = message("magnet:?xt=urn:btih:");
        magnet.append(self.info_hash.as_str());
        magnet.append("&dn=");
        let name = url_encode_str(self.name.as_str());
        magnet.append(name.as_str());
        append_params(&mut magnet, "&tr=", &self.trackers);
        append_params(&mut magnet, "&ws=", &self.web_seed);
        magnet
    }
}

} // verus!
