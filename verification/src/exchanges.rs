//! Venue identifiers and their names.

use vstd::prelude::*;
use vstd::string::*;

verus! {

/// Error raised when a venue name cannot be recognised.
#[derive(Debug, Clone, Copy, PartialEq, Eq, Structural)]
pub enum ExchangeTypeError {
    UnknownTypeError,
}

/// Why a single frame could not be decoded.
#[derive(Debug, Clone, Copy, PartialEq, Eq, Structural)]
pub enum DecodeError {
    /// A price or amount string did not parse as a fixed-point number.
    BadNumber,
    /// The frame did not have the venue's documented shape.
    BadFrame,
}

/// Why an adapter stream item or the stream itself failed.
#[derive(Debug, Clone, Copy, PartialEq, Eq, Structural)]
pub enum AdapterError {
    /// One frame was undecodable; the stream continues.
    Decode(DecodeError),
    /// The subscription handshake was not confirmed; the stream ends.
    Handshake,
    /// The transport closed; the stream ends.
    Disconnected,
}

/// A complete top-of-book refresh from one venue: `(price, amount)` rows
/// in the order the venue listed them, both in fixed-point units.
#[derive(Debug, Clone, PartialEq, Eq)]
pub struct FeedSnapshot {
    pub bids: Vec<(u64, u64)>,
    pub asks: Vec<(u64, u64)>,
}

/// The closed set of market-data venues this library understands.
#[derive(Debug, Clone, Copy, PartialEq, Eq, Hash, Structural)]
pub enum ExchangeType {
    Binance,
    Bitstamp,
}

/// Stable rank used to break price ties between venues.
pub open spec fn venue_rank_spec(e: ExchangeType) -> int {
    match e {
        ExchangeType::Binance => 0,
        ExchangeType::Bitstamp => 1,
    }
}

/// The TitleCase name a venue carries on the wire.
pub open spec fn venue_name_spec(e: ExchangeType) -> Seq<char> {
    match e {
        ExchangeType::Binance => "Binance"@,
        ExchangeType::Bitstamp => "Bitstamp"@,
    }
}

/// `s` spells "binance" in any mix of ASCII case.
pub open spec fn is_binance_name(s: Seq<char>) -> bool {
    &&& s.len() == 7
    &&& (s[0] == 'b' || s[0] == 'B')
    &&& (s[1] == 'i' || s[1] == 'I')
    &&& (s[2] == 'n' || s[2] == 'N')
    &&& (s[3] == 'a' || s[3] == 'A')
    &&& (s[4] == 'n' || s[4] == 'N')
    &&& (s[5] == 'c' || s[5] == 'C')
    &&& (s[6] == 'e' || s[6] == 'E')
}

/// `s` spells "bitstamp" in any mix of ASCII case.
pub open spec fn is_bitstamp_name(s: Seq<char>) -> bool {
    &&& s.len() == 8
    &&& (s[0] == 'b' || s[0] == 'B')
    &&& (s[1] == 'i' || s[1] == 'I')
    &&& (s[2] == 't' || s[2] == 'T')
    &&& (s[3] == 's' || s[3] == 'S')
    &&& (s[4] == 't' || s[4] == 'T')
    &&& (s[5] == 'a' || s[5] == 'A')
    &&& (s[6] == 'm' || s[6] == 'M')
    &&& (s[7] == 'p' || s[7] == 'P')
}

/// Computes the stable tie-break rank of a venue.
pub fn venue_rank(e: ExchangeType) -> (r: u8)
    ensures
        r as int == venue_rank_spec(e),
{
    match e {
        ExchangeType::Binance => 0,
        ExchangeType::Bitstamp => 1,
    }
}

impl ExchangeType {
    /// The venue name in TitleCase, as the RPC surface reports it.
    pub fn to_string(&self) -> (r: String)
        ensures
            r@ == venue_name_spec(*self),
    {
        match *self {
            ExchangeType::Binance => String::from_str("Binance"),
            ExchangeType::Bitstamp => String::from_str("Bitstamp"),
        }
    }

    /// Parses a venue name, ignoring ASCII case; anything else is unknown.
    pub fn from_str(s: &str) -> (r: Result<ExchangeType, ExchangeTypeError>)
        ensures
            is_binance_name(s@) ==> r == Ok::<ExchangeType, ExchangeTypeError>(ExchangeType::Binance),
            is_bitstamp_name(s@) ==> r == Ok::<ExchangeType, ExchangeTypeError>(
                ExchangeType::Bitstamp,
            ),
            !is_binance_name(s@) && !is_bitstamp_name(s@) ==> r == Err::<
                ExchangeType,
                ExchangeTypeError,
            >(ExchangeTypeError::UnknownTypeError),
    {
        let n = s.unicode_len();
        if n == 7 {
            let ok = (s.get_char(0) == 'b' || s.get_char(0) == 'B') && (s.get_char(1) == 'i'
                || s.get_char(1) == 'I') && (s.get_char(2) == 'n' || s.get_char(2) == 'N') && (
            s.get_char(3) == 'a' || s.get_char(3) == 'A') && (s.get_char(4) == 'n' || s.get_char(4)
                == 'N') && (s.get_char(5) == 'c' || s.get_char(5) == 'C') && (s.get_char(6) == 'e'
                || s.get_char(6) == 'E');
            if ok {
                Ok(ExchangeType::Binance)
            } else {
                Err(ExchangeTypeError::UnknownTypeError)
            }
        } else if n == 8 {
            let ok = (s.get_char(0) == 'b' || s.get_char(0) == 'B') && (s.get_char(1) == 'i'
                || s.get_char(1) == 'I') && (s.get_char(2) == 't' || s.get_char(2) == 'T') && (
            s.get_char(3) == 's' || s.get_char(3) == 'S') && (s.get_char(4) == 't' || s.get_char(4)
                == 'T') && (s.get_char(5) == 'a' || s.get_char(5) == 'A') && (s.get_char(6) == 'm'
                || s.get_char(6) == 'M') && (s.get_char(7) == 'p' || s.get_char(7) == 'P');
            if ok {
                Ok(ExchangeType::Bitstamp)
            } else {
                Err(ExchangeTypeError::UnknownTypeError)
            }
        } else {
            Err(ExchangeTypeError::UnknownTypeError)
        }
    }
}

/// Appends every byte of `piece`.
fn push_all(out: &mut Vec<u8>, piece: &Vec<u8>)
    ensures
        final(out)@ == old(out)@ + piece@,
{
    let ghost base = out@;
    let m = piece.len();
    let mut k: usize = 0;
    while k < m
        invariant
            0 <= k <= m,
            m == piece@.len(),
            out@ =~= base + piece@.subrange(0, k as int),
        decreases m - k,
    {
        out.push(piece[k]);
        proof {
            assert(out@ =~= base + piece@.subrange(0, k as int + 1));
        }
        k = k + 1;
    }
    proof {
        assert(out@ =~= base + piece@);
    }
}

/// The bytes of `wss://stream.binance.com:9443/ws/`.
pub open spec fn binance_url_prefix() -> Seq<u8> {
    seq![
        119u8, 115u8, 115u8, 58u8, 47u8, 47u8, 115u8, 116u8, 114u8, 101u8, 97u8, 109u8, 46u8,
        98u8, 105u8, 110u8, 97u8, 110u8, 99u8, 101u8, 46u8, 99u8, 111u8, 109u8, 58u8, 57u8, 52u8,
        52u8, 51u8, 47u8, 119u8, 115u8, 47u8,
    ]
}

/// The bytes of `@depth`.
pub open spec fn binance_depth_infix() -> Seq<u8> {
    seq![64u8, 100u8, 101u8, 112u8, 116u8, 104u8]
}

/// The bytes of `@100ms`.
pub open spec fn binance_url_suffix() -> Seq<u8> {
    seq![64u8, 49u8, 48u8, 48u8, 109u8, 115u8]
}

/// The Binance stream URL for a symbol and depth.
pub open spec fn binance_url_spec(symbol: Seq<u8>, max_depth: int) -> Seq<u8> {
    binance_url_prefix() + symbol + binance_depth_infix() + crate::codec::sp_digits(max_depth)
        + binance_url_suffix()
}

/// The bytes of `wss://ws.bitstamp.net`.
pub open spec fn bitstamp_url_spec() -> Seq<u8> {
    seq![
        119u8, 115u8, 115u8, 58u8, 47u8, 47u8, 119u8, 115u8, 46u8, 98u8, 105u8, 116u8, 115u8,
        116u8, 97u8, 109u8, 112u8, 46u8, 110u8, 101u8, 116u8,
    ]
}

/// The bytes before the symbol in a Bitstamp subscription request:
/// `{"event":"bts:subscribe","data":{"channel":"order_book_`.
pub open spec fn bitstamp_subscribe_prefix() -> Seq<u8> {
    seq![
        123u8, 34u8, 101u8, 118u8, 101u8, 110u8, 116u8, 34u8, 58u8, 34u8, 98u8, 116u8, 115u8,
        58u8, 115u8, 117u8, 98u8, 115u8, 99u8, 114u8, 105u8, 98u8, 101u8, 34u8, 44u8, 34u8,
        100u8, 97u8, 116u8, 97u8, 34u8, 58u8, 123u8, 34u8, 99u8, 104u8, 97u8, 110u8, 110u8,
        101u8, 108u8, 34u8, 58u8, 34u8, 111u8, 114u8, 100u8, 101u8, 114u8, 95u8, 98u8, 111u8,
        111u8, 107u8, 95u8,
    ]
}

/// The bytes after the symbol in a Bitstamp subscription request: `"}}`.
pub open spec fn bitstamp_subscribe_suffix() -> Seq<u8> {
    seq![34u8, 125u8, 125u8]
}

/// The Bitstamp subscription request for a symbol.
pub open spec fn bitstamp_subscribe_spec(symbol: Seq<u8>) -> Seq<u8> {
    bitstamp_subscribe_prefix() + symbol + bitstamp_subscribe_suffix()
}

/// The Binance feed: top-of-book snapshots on a public websocket stream.
pub struct Binance {}

impl Binance {
    /// The venue this adapter feeds from.
    pub fn name(&self) -> (e: ExchangeType)
        ensures
            e == ExchangeType::Binance,
    {
        ExchangeType::Binance
    }

    /// The stream URL for a symbol at a depth.
    pub fn url(symbol: &Vec<u8>, max_depth: usize) -> (out: Vec<u8>)
        ensures
            out@ == binance_url_spec(symbol@, max_depth as int),
    {
        let prefix: Vec<u8> = vec![
            119u8, 115u8, 115u8, 58u8, 47u8, 47u8, 115u8, 116u8, 114u8, 101u8, 97u8, 109u8, 46u8,
            98u8, 105u8, 110u8, 97u8, 110u8, 99u8, 101u8, 46u8, 99u8, 111u8, 109u8, 58u8, 57u8,
            52u8, 52u8, 51u8, 47u8, 119u8, 115u8, 47u8,
        ];
        let infix: Vec<u8> = vec![64u8, 100u8, 101u8, 112u8, 116u8, 104u8];
        let suffix: Vec<u8> = vec![64u8, 49u8, 48u8, 48u8, 109u8, 115u8];
        proof {
            assert(prefix@ =~= binance_url_prefix());
            assert(infix@ =~= binance_depth_infix());
            assert(suffix@ =~= binance_url_suffix());
        }
        let mut out: Vec<u8> = Vec::new();
        push_all(&mut out, &prefix);
        push_all(&mut out, symbol);
        push_all(&mut out, &infix);
        crate::codec::push_digits(&mut out, max_depth as u64);
        push_all(&mut out, &suffix);
        proof {
            assert(out@ =~= binance_url_spec(symbol@, max_depth as int));
        }
        out
    }

    /// Decodes one Binance frame.
    pub fn decode(raw: &Vec<u8>) -> (r: Result<FeedSnapshot, DecodeError>)
        ensures
            match r {
                Ok(snap) => crate::codec::sp_decode_binance(raw@) == Ok::<
                    (Seq<(u64, u64)>, Seq<(u64, u64)>),
                    DecodeError,
                >((snap.bids@, snap.asks@)),
                Err(e) => crate::codec::sp_decode_binance(raw@) == Err::<
                    (Seq<(u64, u64)>, Seq<(u64, u64)>),
                    DecodeError,
                >(e),
            },
    {
        crate::codec::decode_binance(raw)
    }
}

/// The Bitstamp feed: snapshots arrive wrapped under a `data` key after
/// an explicit channel subscription.
pub struct Bitstamp {}

impl Bitstamp {
    /// The venue this adapter feeds from.
    pub fn name(&self) -> (e: ExchangeType)
        ensures
            e == ExchangeType::Bitstamp,
    {
        ExchangeType::Bitstamp
    }

    /// The websocket endpoint.
    pub fn url() -> (out: Vec<u8>)
        ensures
            out@ == bitstamp_url_spec(),
    {
        let out: Vec<u8> = vec![
            119u8, 115u8, 115u8, 58u8, 47u8, 47u8, 119u8, 115u8, 46u8, 98u8, 105u8, 116u8, 115u8,
            116u8, 97u8, 109u8, 112u8, 46u8, 110u8, 101u8, 116u8,
        ];
        proof {
            assert(out@ =~= bitstamp_url_spec());
        }
        out
    }

    /// The subscription request for the order-book channel of a symbol.
    pub fn subscribe_frame(symbol: &Vec<u8>) -> (out: Vec<u8>)
        ensures
            out@ == bitstamp_subscribe_spec(symbol@),
    {
        let prefix: Vec<u8> = vec![
            123u8, 34u8, 101u8, 118u8, 101u8, 110u8, 116u8, 34u8, 58u8, 34u8, 98u8, 116u8, 115u8,
            58u8, 115u8, 117u8, 98u8, 115u8, 99u8, 114u8, 105u8, 98u8, 101u8, 34u8, 44u8, 34u8,
            100u8, 97u8, 116u8, 97u8, 34u8, 58u8, 123u8, 34u8, 99u8, 104u8, 97u8, 110u8, 110u8,
            101u8, 108u8, 34u8, 58u8, 34u8, 111u8, 114u8, 100u8, 101u8, 114u8, 95u8, 98u8, 111u8,
            111u8, 107u8, 95u8,
        ];
        let suffix: Vec<u8> = vec![34u8, 125u8, 125u8];
        proof {
            assert(prefix@ =~= bitstamp_subscribe_prefix());
            assert(suffix@ =~= bitstamp_subscribe_suffix());
        }
        let mut out: Vec<u8> = Vec::new();
        push_all(&mut out, &prefix);
        push_all(&mut out, symbol);
        push_all(&mut out, &suffix);
        proof {
            assert(out@ =~= bitstamp_subscribe_spec(symbol@));
        }
        out
    }

    /// True exactly when the frame confirms the channel subscription.
    pub fn subscription_confirmed(raw: &Vec<u8>) -> (r: bool)
        ensures
            r == crate::codec::sp_bitstamp_ack(raw@),
    {
        crate::codec::bitstamp_ack_ok(raw)
    }

    /// Decodes one Bitstamp frame.
    pub fn decode(raw: &Vec<u8>) -> (r: Result<FeedSnapshot, DecodeError>)
        ensures
            match r {
                Ok(snap) => crate::codec::sp_decode_bitstamp(raw@) == Ok::<
                    (Seq<(u64, u64)>, Seq<(u64, u64)>),
                    DecodeError,
                >((snap.bids@, snap.asks@)),
                Err(e) => crate::codec::sp_decode_bitstamp(raw@) == Err::<
                    (Seq<(u64, u64)>, Seq<(u64, u64)>),
                    DecodeError,
                >(e),
            },
    {
        crate::codec::decode_bitstamp(raw)
    }
}

} // verus!
