//! Verification of copies: a copy counts only when its size and its
//! SHA-256 digest match those of the file it was made from.
use vstd::prelude::*;

use sha2::Digest;

verus! {

/// The SHA-256 digest of `bytes`, as `sha2` computes it.
pub uninterp spec fn sha256_digest(bytes: Seq<u8>) -> Seq<u8>;

/// `sha2::Sha256::digest`: the 32-byte SHA-256 digest of the input. The
/// digest itself is named, not restated.
#[verifier::external_body]
fn sha256(bytes: &[u8]) -> (r: Vec<u8>)
    ensures
        r@ == sha256_digest(bytes@),
        r@.len() == 32,
{
    sha2::Sha256::digest(bytes).to_vec()
}

/// The digest a copy is checked with.
pub fn content_digest(bytes: &[u8]) -> (r: Vec<u8>)
    ensures
        r@ == sha256_digest(bytes@),
        r@.len() == 32,
{
    sha256(bytes)
}

pub open spec fn size_mismatch_message() -> Seq<char> {
    "El tamaño copiado no coincide con el original"@
}

pub open spec fn digest_mismatch_message() -> Seq<char> {
    "La verificación SHA-256 de la copia no coincide"@
}

/// Accepts a copy whose bytes copied and whose size on disk equal the size
/// of its source, and whose digest equals the source's digest.
pub fn verify_copy(
    source_len: u64,
    copied: u64,
    destination_len: u64,
    source_digest: &[u8],
    destination_digest: &[u8],
) -> (r: Result<(), String>)
    ensures
        copied != source_len || destination_len != source_len ==> (r matches Err(m) && m@
            == size_mismatch_message()),
        copied == source_len && destination_len == source_len ==> (if source_digest@
            == destination_digest@ {
            r is Ok
        } else {
            r matches Err(m) && m@ == digest_mismatch_message()
        }),
{
    if copied != source_len || destination_len != source_len {
        proof {
            reveal_strlit("El tamaño copiado no coincide con el original");
        }
        return Err("El tamaño copiado no coincide con el original".to_owned());
    }
    if source_digest.len() != destination_digest.len() {
        proof {
            reveal_strlit("La verificación SHA-256 de la copia no coincide");
        }
        return Err("La verificación SHA-256 de la copia no coincide".to_owned());
    }
    let mut same = true;
    let mut i: usize = 0;
    while i < source_digest.len()
        invariant
            i <= source_digest@.len(),
            source_digest@.len() == destination_digest@.len(),
            same == forall|k: int| 0 <= k < i ==> source_digest@[k] == destination_digest@[k],
        decreases source_digest@.len() - i,
    {
        if source_digest[i] != destination_digest[i] {
            same = false;
        }
        i = i + 1;
    }
    if same {
        assert(source_digest@ =~= destination_digest@);
        Ok(())
    } else {
        proof {
            reveal_strlit("La verificación SHA-256 de la copia no coincide");
        }
        Err("La verificación SHA-256 de la copia no coincide".to_owned())
    }
}

} // verus!
