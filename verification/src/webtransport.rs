//! Options of WebTransport connections, and certificate hashes.

use vstd::prelude::*;
use vstd::string::*;
use vstd::utf8::*;

verus! {

/// A hash in hexadecimal that could not be read.
#[derive(Clone, Copy, Debug, PartialEq, Eq, Structural)]
pub enum DecodeHexError {
    OddLength,
    ParseInt,
}

impl DecodeHexError {
    pub fn message(&self) -> (r: String)
        ensures
            r@ == "decode hex error"@,
    {
        "decode hex error".to_owned()
    }
}

/// The value of a hexadecimal digit, in either case.
pub open spec fn hex_value(c: u8) -> Option<nat> {
    if 48 <= c <= 57 {
        Some((c - 48) as nat)
    } else if 65 <= c <= 70 {
        Some((c - 55) as nat)
    } else if 97 <= c <= 102 {
        Some((c - 87) as nat)
    } else {
        None
    }
}

/// The value of two characters: two digits, or a plus sign and a digit.
pub open spec fn pair_value(a: u8, b: u8) -> Option<nat> {
    match (hex_value(a), hex_value(b)) {
        (Some(high), Some(low)) => Some(16 * high + low),
        (None, Some(low)) => if a == 43 {
            Some(low)
        } else {
            None
        },
        _ => None,
    }
}

/// Every pair of characters has a value.
pub open spec fn is_hex(s: Seq<u8>) -> bool {
    &&& s.len() % 2 == 0
    &&& forall|i: int|
        0 <= i < s.len() / 2 ==> pair_value(#[trigger] s[2 * i], s[2 * i + 1]) is Some
}

/// The bytes that the pairs of characters stand for.
pub open spec fn hex_bytes(s: Seq<u8>) -> Seq<u8> {
    Seq::new(s.len() / 2, |i: int| pair_value(s[2 * i], s[2 * i + 1]).unwrap() as u8)
}

fn digit_value(c: u8) -> (r: Option<u8>)
    ensures
        match r {
            Some(value) => hex_value(c) == Some(value as nat) && value < 16,
            None => hex_value(c) is None,
        },
{
    if 48 <= c && c <= 57 {
        Some(c - 48)
    } else if 65 <= c && c <= 70 {
        Some(c - 55)
    } else if 97 <= c && c <= 102 {
        Some(c - 87)
    } else {
        None
    }
}

fn byte_value(a: u8, b: u8) -> (r: Option<u8>)
    ensures
        match r {
            Some(value) => pair_value(a, b) == Some(value as nat),
            None => pair_value(a, b) is None,
        },
{
    match (digit_value(a), digit_value(b)) {
        (Some(high), Some(low)) => Some(16 * high + low),
        (None, Some(low)) => if a == 43 {
            Some(low)
        } else {
            None
        },
        _ => None,
    }
}

/// The hash of a certificate.
#[derive(Debug)]
pub struct WebTransportJSHash {
    pub algorithm: String,
    pub value: Vec<u8>,
}

impl WebTransportJSHash {
    pub fn new(algorithm: String, value: Vec<u8>) -> (r: Self)
        ensures
            r.algorithm@ == algorithm@,
            r.value@ == value@,
    {
        WebTransportJSHash { algorithm, value }
    }

    /// Reads a hash in hexadecimal, two characters per byte.
    pub fn new_from_hex(algorithm: String, hash: &str) -> (r: Result<Self, DecodeHexError>)
        ensures
            match r {
                Ok(this) => {
                    &&& is_hex(encode_utf8(hash@))
                    &&& this.algorithm@ == algorithm@
                    &&& this.value@ == hex_bytes(encode_utf8(hash@))
                },
                Err(DecodeHexError::OddLength) => encode_utf8(hash@).len() % 2 == 1,
                Err(DecodeHexError::ParseInt) => encode_utf8(hash@).len() % 2 == 0 && !is_hex(
                    encode_utf8(hash@),
                ),
            },
    {
        match Self::hex_to_bytes(hash) {
            Err(error) => Err(error),
            Ok(value) => Ok(Self::new(algorithm, value)),
        }
    }

    pub fn new_sha256_from_hex(hash: &str) -> (r: Result<Self, DecodeHexError>)
        ensures
            match r {
                Ok(this) => {
                    &&& is_hex(encode_utf8(hash@))
                    &&& this.algorithm@ == "sha-256"@
                    &&& this.value@ == hex_bytes(encode_utf8(hash@))
                },
                Err(DecodeHexError::OddLength) => encode_utf8(hash@).len() % 2 == 1,
                Err(DecodeHexError::ParseInt) => encode_utf8(hash@).len() % 2 == 0 && !is_hex(
                    encode_utf8(hash@),
                ),
            },
    {
        Self::new_from_hex("sha-256".to_owned(), hash)
    }

    fn hex_to_bytes(s: &str) -> (r: Result<Vec<u8>, DecodeHexError>)
        ensures
            match r {
                Ok(bytes) => is_hex(encode_utf8(s@)) && bytes@ == hex_bytes(encode_utf8(s@)),
                Err(DecodeHexError::OddLength) => encode_utf8(s@).len() % 2 == 1,
                Err(DecodeHexError::ParseInt) => encode_utf8(s@).len() % 2 == 0 && !is_hex(
                    encode_utf8(s@),
                ),
            },
    {
        let text = s.as_bytes();
        if text.len() % 2 != 0 {
            return Err(DecodeHexError::OddLength);
        }
        let count: usize = text.len() / 2;
        let mut bytes: Vec<u8> = Vec::new();
        let mut i: usize = 0;
        while i < count
            invariant
                text@ == encode_utf8(s@),
                text@.len() % 2 == 0,
                count == text@.len() / 2,
                i <= count,
                bytes@ =~= hex_bytes(text@).take(i as int),
                forall|j: int|
                    0 <= j < i ==> pair_value(#[trigger] text@[2 * j], text@[2 * j + 1]) is Some,
            decreases count - i,
        {
            match byte_value(text[2 * i], text[2 * i + 1]) {
                None => {
                    assert(pair_value(text@[2 * (i as int)], text@[2 * (i as int) + 1]) is None);
                    return Err(DecodeHexError::ParseInt);
                },
                Some(value) => {
                    bytes.push(value);
                },
            }
            i += 1;
        }
        assert(hex_bytes(text@).take(i as int) =~= hex_bytes(text@));
        Ok(bytes)
    }
}

/// A certificate hash as a client is given it.
#[derive(Debug)]
pub struct WebTransportCertificateHash {
    pub hash_algorithm: String,
    pub hash: String,
}

/// What the congestion control is to favour.
#[derive(Clone, Copy, Debug, PartialEq, Eq, Structural)]
pub enum WebTransportJSCongestionControl {
    Default,
    Throughput,
    LowLatency,
}

#[derive(Debug)]
pub struct WebTransportJSOptions {
    pub congestion_control: WebTransportJSCongestionControl,
    pub require_unreliable: bool,
    pub server_certificate_hashes: Vec<WebTransportJSHash>,
}

impl Default for WebTransportJSOptions {
    fn default() -> (r: Self)
        ensures
            r.congestion_control == WebTransportJSCongestionControl::Default,
            !r.require_unreliable,
            r.server_certificate_hashes@.len() == 0,
    {
        WebTransportJSOptions {
            congestion_control: WebTransportJSCongestionControl::Default,
            require_unreliable: false,
            server_certificate_hashes: Vec::new(),
        }
    }
}

/// The options of a client's connection: low latency, datagrams, and the
/// server's certificate if its hash is given.
pub fn client_options(certificate_hash: Option<WebTransportCertificateHash>) -> (r: Result<
    WebTransportJSOptions,
    DecodeHexError,
>)
    ensures
        match r {
            Ok(options) => {
                &&& options.congestion_control == WebTransportJSCongestionControl::LowLatency
                &&& options.require_unreliable
                &&& match certificate_hash {
                    None => options.server_certificate_hashes@.len() == 0,
                    Some(certificate_hash) => {
                        &&& options.server_certificate_hashes@.len() == 1
                        &&& options.server_certificate_hashes@[0].algorithm@
                            == certificate_hash.hash_algorithm@
                        &&& is_hex(encode_utf8(certificate_hash.hash@))
                        &&& options.server_certificate_hashes@[0].value@ == hex_bytes(
                            encode_utf8(certificate_hash.hash@),
                        )
                    },
                }
            },
            Err(error) => {
                &&& certificate_hash matches Some(certificate_hash)
                &&& !is_hex(encode_utf8(certificate_hash.hash@))
                &&& error == if encode_utf8(certificate_hash.hash@).len() % 2 == 1 {
                    DecodeHexError::OddLength
                } else {
                    DecodeHexError::ParseInt
                }
            },
        },
{
    let mut server_certificate_hashes: Vec<WebTransportJSHash> = Vec::new();
    if let Some(certificate_hash) = certificate_hash {
        match WebTransportJSHash::new_from_hex(
            certificate_hash.hash_algorithm,
            certificate_hash.hash.as_str(),
        ) {
            Err(error) => {
                return Err(error);
            },
            Ok(hash) => {
                server_certificate_hashes.push(hash);
            },
        }
    }
    Ok(
        WebTransportJSOptions {
            congestion_control: WebTransportJSCongestionControl::LowLatency,
            require_unreliable: true,
            server_certificate_hashes,
        },
    )
}

/// The characters that stand for a number below sixteen.
pub open spec fn is_digit(c: u8, value: nat) -> bool {
    ||| value < 10 && c == 48 + value
    ||| 10 <= value < 16 && (c == 65 + (value - 10) || c == 97 + (value - 10))
}

/// Two hexadecimal digits for every byte, in either case, give the bytes back.
pub proof fn lemma_hex_gives_bytes_back(s: Seq<u8>, bytes: Seq<u8>)
    requires
        s.len() == 2 * bytes.len(),
        forall|i: int|
            0 <= i < bytes.len() ==> is_digit(#[trigger] s[2 * i], bytes[i] as nat / 16)
                && is_digit(s[2 * i + 1], bytes[i] as nat % 16),
    ensures
        is_hex(s),
        hex_bytes(s) == bytes,
{
    assert forall|i: int| 0 <= i < s.len() / 2 implies pair_value(#[trigger] s[2 * i], s[2 * i
        + 1]) == Some(bytes[i] as nat) by {
        assert(is_digit(s[2 * i], bytes[i] as nat / 16));
    }
    assert forall|i: int| 0 <= i < bytes.len() implies #[trigger] hex_bytes(s)[i]
        == bytes[i] by {
        assert(pair_value(s[2 * i], s[2 * i + 1]) == Some(bytes[i] as nat));
    }
    assert(hex_bytes(s) =~= bytes);
}

/// Nothing else is read: of every pair the second character is a digit, and the first one
/// is a digit or a plus sign, which stands for zero.
pub proof fn lemma_only_hex_is_read(s: Seq<u8>, i: int)
    requires
        is_hex(s),
        0 <= i < s.len() / 2,
    ensures
        s.len() % 2 == 0,
        hex_bytes(s).len() == s.len() / 2,
        is_digit(s[2 * i + 1], hex_bytes(s)[i] as nat % 16),
        is_digit(s[2 * i], hex_bytes(s)[i] as nat / 16) || (s[2 * i] == 43 && hex_bytes(s)[i]
            < 16),
{
    assert(pair_value(s[2 * i], s[2 * i + 1]) is Some);
}

/// A pair that is not of that form makes the text unreadable, and so does an odd length.
pub proof fn lemma_other_text_is_refused(s: Seq<u8>, i: int)
    ensures
        s.len() % 2 == 1 ==> !is_hex(s),
        s.len() % 2 == 0 && 0 <= i < s.len() / 2 && (forall|v: nat|
            !(#[trigger] is_digit(s[2 * i + 1], v))) ==> !is_hex(s),
        s.len() % 2 == 0 && 0 <= i < s.len() / 2 && s[2 * i] != 43 && (forall|v: nat|
            !(#[trigger] is_digit(s[2 * i], v))) ==> !is_hex(s),
{
    if is_hex(s) && 0 <= i < s.len() / 2 {
        lemma_only_hex_is_read(s, i);
    }
}

} // verus!
