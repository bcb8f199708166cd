//! Sizes of TLS records and of the buffers that stage them.

use vstd::prelude::*;

verus! {

/// Width of a record header: type, legacy version, body length.
pub const HEADER_LEN: usize = 5;

/// Width of the authentication tag that closes a protected record.
pub const AEAD_TAG_LEN: usize = 16;

/// Largest plaintext fragment of one record.
pub const MAX_PLAINTEXT_BODY: usize = 16384;

/// Largest body of a protected record.
pub const MAX_CIPHERTEXT_BODY: usize = MAX_PLAINTEXT_BODY + 256;

/// Largest record on the wire.
pub const MAX_TLS_RECORD: usize = HEADER_LEN + MAX_CIPHERTEXT_BODY;

/// What protection adds to a fragment: header, inner type, tag.
pub const TLS13_RECORD_OVERHEAD: usize = HEADER_LEN + 1 + AEAD_TAG_LEN;

/// Room beyond one record in an outbound staging buffer.
pub const STAGING_HEADROOM: usize = 8192;

/// Capacity of an outbound staging buffer.
pub const TLS_STAGING_CAP: usize = MAX_TLS_RECORD + STAGING_HEADROOM;

/// Records that one key may seal before it has to be replaced.
pub const AEAD_CONFIDENTIALITY_LIMIT: u64 = 8388608;

/// An outbound staging buffer holds any single record, and stays under 32 KiB.
pub proof fn staging_holds_one_record()
    ensures
        MAX_TLS_RECORD <= TLS_STAGING_CAP <= 32 * 1024,
        MAX_PLAINTEXT_BODY + TLS13_RECORD_OVERHEAD <= MAX_TLS_RECORD,
{
}

} // verus!
