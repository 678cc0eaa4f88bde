//! Fresh identifiers for new elements, made from random bytes that the
//! caller draws.
use vstd::prelude::*;

verus! {

pub open spec fn is_lower_hex(c: char) -> bool {
    ('0' <= c && c <= '9') || ('a' <= c && c <= 'f')
}

/// The hyphenated text of a random (version 4, RFC 4122 variant) UUID:
/// `xxxxxxxx-xxxx-4xxx-yxxx-xxxxxxxxxxxx` in lower-case hex, `y` one of
/// `8`, `9`, `a`, `b`.
pub open spec fn uuid_v4_text(s: Seq<char>) -> bool {
    &&& s.len() == 36
    &&& forall|i: int|
        0 <= i < 36 ==> if i == 8 || i == 13 || i == 18 || i == 23 {
            #[trigger] s[i] == '-'
        } else {
            is_lower_hex(s[i])
        }
    &&& s[14] == '4'
    &&& (s[19] == '8' || s[19] == '9' || s[19] == 'a' || s[19] == 'b')
}

pub open spec fn pow256(n: nat) -> int
    decreases n,
{
    if n == 0 {
        1
    } else {
        256 * pow256((n - 1) as nat)
    }
}

/// Byte `i` (0 the most significant) of the UUID made from `random`: the
/// random byte, with the version (4) in the high half of byte 6 and the
/// RFC 4122 variant (binary `10`) in the top bits of byte 8.
pub open spec fn uuid_byte(random: u128, i: int) -> int {
    let b = (random as int / pow256((15 - i) as nat)) % 256;
    if i == 6 {
        0x40 + b % 16
    } else if i == 8 {
        0x80 + b % 64
    } else {
        b
    }
}

pub open spec fn hex_digit(d: int) -> char {
    if d < 10 {
        (48 + d) as char
    } else {
        (87 + d) as char
    }
}

/// How many hyphens come before position `p` of the text.
pub open spec fn hyphens_before(p: int) -> int {
    (if p > 8 {
        1int
    } else {
        0int
    }) + (if p > 13 {
        1int
    } else {
        0int
    }) + (if p > 18 {
        1int
    } else {
        0int
    }) + (if p > 23 {
        1int
    } else {
        0int
    })
}

/// The hyphenated lower-case text of the UUID made from `random`: its 16
/// bytes in hex, two digits each, grouped 4-2-2-2-6 by hyphens.
pub open spec fn uuid_text(random: u128) -> Seq<char> {
    Seq::new(
        36,
        |p: int|
            if p == 8 || p == 13 || p == 18 || p == 23 {
                '-'
            } else {
                let q = p - hyphens_before(p);
                let b = uuid_byte(random, q / 2);
                hex_digit(
                    if q % 2 == 0 {
                        b / 16
                    } else {
                        b % 16
                    },
                )
            },
    )
}

proof fn lemma_pow256_positive(n: nat)
    ensures
        pow256(n) > 0,
    decreases n,
{
    if n > 0 {
        lemma_pow256_positive((n - 1) as nat);
    }
}

/// The text made from any random value is a version-4 UUID.
pub proof fn lemma_uuid_text_is_v4(random: u128)
    ensures
        uuid_v4_text(uuid_text(random)),
{
    let s = uuid_text(random);
    assert forall|i: int| 0 <= i < 36 implies if i == 8 || i == 13 || i == 18 || i == 23 {
        #[trigger] s[i] == '-'
    } else {
        is_lower_hex(s[i])
    } by {
        if !(i == 8 || i == 13 || i == 18 || i == 23) {
            let q = i - hyphens_before(i);
            let k = q / 2;
            lemma_pow256_positive((15 - k) as nat);
            let b = uuid_byte(random, k);
            assert(0 <= b < 256);
            let d = if q % 2 == 0 {
                b / 16
            } else {
                b % 16
            };
            assert(0 <= d < 16);
        }
    }
    lemma_pow256_positive(9);
    lemma_pow256_positive(7);
    assert(s[14] == hex_digit(uuid_byte(random, 6) / 16));
    assert(s[19] == hex_digit(uuid_byte(random, 8) / 16));
}

/// `uuid::Builder::from_random_bytes(..).into_uuid().to_string()`: the UUID
/// whose bytes are `random`'s, most significant first, with the version
/// and variant bits set as `Builder::with_version(Version::Random)` and
/// `Builder::with_variant(Variant::RFC4122)` set them, in its lower-case
/// hyphenated form.
#[verifier::external_body]
pub(crate) fn uuid_from_random(random: u128) -> (r: String)
    ensures
        r@ == uuid_text(random),
{
    uuid::Builder::from_random_bytes(random.to_be_bytes()).into_uuid().to_string()
}

/// A fresh id made from `random`.
pub fn new_id(random: u128) -> (r: String)
    ensures
        r@ == uuid_text(random),
        uuid_v4_text(r@),
{
    proof {
        lemma_uuid_text_is_v4(random);
    }
    uuid_from_random(random)
}

} // verus!
