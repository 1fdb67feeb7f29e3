//! What the tracker exchange needs from the core: percent-encoding of
//! the info-hash for the announce URL, and the compact peer list that
//! comes back (six bytes per peer: IPv4 address, then a big-endian
//! port).

use vstd::prelude::*;
use vstd::string::StringExecFns;

use crate::endian::{spec_u16_from_be_bytes, u16_from_be};

verus! {

/// The lowercase hex digit for a value below 16.
pub open spec fn spec_hex_digit(n: int) -> char {
    if n == 0 {
        '0'
    } else if n == 1 {
        '1'
    } else if n == 2 {
        '2'
    } else if n == 3 {
        '3'
    } else if n == 4 {
        '4'
    } else if n == 5 {
        '5'
    } else if n == 6 {
        '6'
    } else if n == 7 {
        '7'
    } else if n == 8 {
        '8'
    } else if n == 9 {
        '9'
    } else if n == 10 {
        'a'
    } else if n == 11 {
        'b'
    } else if n == 12 {
        'c'
    } else if n == 13 {
        'd'
    } else if n == 14 {
        'e'
    } else {
        'f'
    }
}

/// The lowercase hex encoding of a byte sequence: high nibble first,
/// two digits per byte.
pub open spec fn spec_hex_lower(data: Seq<u8>) -> Seq<char>
    decreases data.len(),
{
    if data.len() == 0 {
        Seq::empty()
    } else {
        seq![
            spec_hex_digit((data.first() >> 4u8) as int),
            spec_hex_digit((data.first() & 0x0fu8) as int),
        ] + spec_hex_lower(data.drop_first())
    }
}

/// Relies on hex::encode: two lowercase hex digits per input byte,
/// high nibble first.
#[verifier::external_body]
fn hex_lower(data: &[u8]) -> (r: String)
    ensures
        r@ == spec_hex_lower(data@),
{
    hex::encode(data)
}

/// The percent-encoding of the first `n` bytes: `%` and two lowercase
/// hex digits for each byte.
pub open spec fn spec_urlencode_prefix(data: Seq<u8>, n: int) -> Seq<char>
    decreases n,
{
    if n <= 0 {
        Seq::empty()
    } else {
        spec_urlencode_prefix(data, n - 1) + seq!['%'] + spec_hex_lower(seq![data[n - 1]])
    }
}

/// The percent-encoding of a byte sequence, every byte escaped.
pub open spec fn spec_urlencode(data: Seq<u8>) -> Seq<char> {
    spec_urlencode_prefix(data, data.len() as int)
}

/// Percent-encodes the 20-byte info-hash for the announce URL's query
/// string, escaping every byte.
pub fn urlencode(t: &[u8; 20]) -> (r: String)
    ensures
        r@ == spec_urlencode(t@),
{
    let mut encoded: String = String::new();
    let s: &[u8] = t.as_slice();
    let n: usize = s.len();
    let mut i: usize = 0;
    while i < n
        invariant
            i <= n,
            n == s@.len(),
            encoded@ == spec_urlencode_prefix(s@, i as int),
        decreases n - i,
    {
        let mut one: Vec<u8> = Vec::new();
        one.push(s[i]);
        let pair: String = hex_lower(one.as_slice());
        proof {
            reveal_strlit("%");
        }
        encoded.append("%");
        encoded.append(pair.as_str());
        proof {
            assert(one@ =~= seq![s@[i as int]]);
        }
        i = i + 1;
    }
    encoded
}

/// One peer endpoint from the tracker's compact list: an IPv4 address
/// as four octets and a TCP port.
#[derive(Debug, Clone, Copy, PartialEq, Eq, Structural)]
pub struct PeerAddr {
    pub a: u8,
    pub b: u8,
    pub c: u8,
    pub d: u8,
    pub port: u16,
}

/// Splits a compact tracker peer list into endpoints: six bytes per
/// peer, four address octets then a big-endian port. `None` when the
/// list's length is no multiple of six.
pub fn parse_compact_peers(v: &[u8]) -> (r: Option<Vec<PeerAddr>>)
    ensures
        match r {
            Some(ps) => {
                &&& v@.len() % 6 == 0
                &&& ps@.len() == v@.len() / 6
                &&& forall|i: int|
                    0 <= i < ps@.len() ==> {
                        &&& (#[trigger] ps@[i]).a == v@[6 * i]
                        &&& ps@[i].b == v@[6 * i + 1]
                        &&& ps@[i].c == v@[6 * i + 2]
                        &&& ps@[i].d == v@[6 * i + 3]
                        &&& ps@[i].port == spec_u16_from_be_bytes(
                            seq![v@[6 * i + 4], v@[6 * i + 5]],
                        )
                    }
            },
            None => v@.len() % 6 != 0,
        },
{
    if v.len() % 6 != 0 {
        return None;
    }
    let vn: usize = v.len();
    let count: usize = vn / 6;
    let mut ps: Vec<PeerAddr> = Vec::new();
    let mut i: usize = 0;
    proof {
        vstd::arithmetic::div_mod::lemma_fundamental_div_mod(v@.len() as int, 6);
    }
    while i < count
        invariant
            i <= count,
            vn == v@.len(),
            6 * count <= vn,
            ps@.len() == i,
            forall|k: int|
                0 <= k < i ==> {
                    &&& (#[trigger] ps@[k]).a == v@[6 * k]
                    &&& ps@[k].b == v@[6 * k + 1]
                    &&& ps@[k].c == v@[6 * k + 2]
                    &&& ps@[k].d == v@[6 * k + 3]
                    &&& ps@[k].port == spec_u16_from_be_bytes(seq![v@[6 * k + 4], v@[6 * k + 5]])
                },
        decreases count - i,
    {
        proof {
            assert(6 * (i + 1) <= 6 * count) by (nonlinear_arith)
                requires i + 1 <= count;
        }
        let o: usize = 6 * i;
        let port: u16 = u16_from_be(v[o + 4], v[o + 5]);
        ps.push(PeerAddr { a: v[o], b: v[o + 1], c: v[o + 2], d: v[o + 3], port });
        i = i + 1;
    }
    Some(ps)
}

} // verus!
