//! The closed set of failure kinds used throughout the library.

use vstd::prelude::*;
use vstd::string::StringExecFns;

verus! {

/// Every failure the library reports.
///
/// Failures that come from the operating system or from a serialisation
/// library are carried as their message text.
#[derive(Debug, Clone, PartialEq, Eq)]
pub enum BitSwapError {
    /// Input/output failure.
    Io(String),
    /// Serialisation failure.
    Serialization(String),
    /// Transport failure.
    Transport(String),
    /// Peer discovery failure.
    Dht(String),
    /// Misbehaving peer.
    Peer(String),
    /// Malformed wire data.
    Protocol(String),
    /// Invalid metadata.
    Metadata(String),
    /// Storage failure.
    Storage(String),
    /// Hash or encoding failure.
    Crypto(String),
    /// Invalid configuration.
    Config(String),
    /// A piece whose digest does not match the metadata.
    PieceVerificationFailed { piece_index: u32, expected: String, actual: String },
    /// Invalid torrent file.
    InvalidTorrent(String),
    /// A peer went away.
    PeerDisconnected { peer_id: String },
    /// A peer exceeded its rate limit.
    RateLimitExceeded { peer_id: String },
    /// A piece index outside the torrent.
    InvalidPieceIndex { index: u32, total: u32 },
    /// Any other failure.
    Other(String),
}

/// Result type of the library's fallible operations.
pub type BitSwapResult<T> = Result<T, BitSwapError>;

impl From<String> for BitSwapError {
    fn from(s: String) -> (r: Self)
        ensures
            r == BitSwapError::Other(s),
    {
        BitSwapError::Other(s)
    }
}

impl vstd::std_specs::convert::FromSpecImpl<String> for BitSwapError {
    open spec fn obeys_from_spec() -> bool {
        true
    }

    open spec fn from_spec(s: String) -> BitSwapError {
        BitSwapError::Other(s)
    }
}

/// Builds an owned message from a literal.
pub fn message(s: &str) -> (r: String)
    ensures
        r@ == s@,
{
    s.to_owned()
}

/// Appends the decimal digits of `n`, keeping what was there.
pub fn append_decimal(s: &mut String, n: u64)
    ensures
        final(s)@.len() > old(s)@.len(),
        final(s)@.subrange(0, old(s)@.len() as int) == old(s)@,
    decreases n,
{
    if n >= 10 {
        append_decimal(s, n / 10);
    }
    let ghost mid = s@;
    let d = n % 10;
    let digit = if d == 0 {
        "0"
    } else if d == 1 {
        "1"
    } else if d == 2 {
        "2"
    } else if d == 3 {
        "3"
    } else if d == 4 {
        "4"
    } else if d == 5 {
        "5"
    } else if d == 6 {
        "6"
    } else if d == 7 {
        "7"
    } else if d == 8 {
        "8"
    } else {
        "9"
    };
    proof {
        reveal_strlit("0");
        reveal_strlit("1");
        reveal_strlit("2");
        reveal_strlit("3");
        reveal_strlit("4");
        reveal_strlit("5");
        reveal_strlit("6");
        reveal_strlit("7");
        reveal_strlit("8");
        reveal_strlit("9");
    }
    s.append(digit);
    assert(s@.subrange(0, old(s)@.len() as int) =~= old(s)@);
}

/// A message about the torrent called `name`: `torrent 'NAME': DETAIL`.
pub fn torrent_message(name: &str, detail: &str) -> (r: String)
    ensures
        r@.len() > 0,
{
    let mut m = message("torrent '");
    proof {
        reveal_strlit("torrent '");
    }
    m.append(name);
    m.append("': ");
    m.append(detail);
    m
}

} // verus!
