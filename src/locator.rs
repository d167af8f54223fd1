//! Finds the first encrypted entry's local header in raw archive bytes and
//! takes out its 12-byte encryption header and check byte.
use vstd::prelude::*;
use crate::zipcrypto::CryptoHeader;

verus! {

/// Why no header could be taken from an archive.
#[derive(Clone, Copy, PartialEq, Eq, Debug, Structural)]
pub enum LocateError {
    /// The first encrypted entry uses AES (method 99).
    UnsupportedEncryption,
    /// An encrypted entry's header runs past the end of the bytes.
    Truncated,
    /// No local header marks an encrypted entry.
    NoEncryptedEntry,
}

/// Compression method that marks AES encryption.
pub const AES_METHOD: u16 = 99;

/// Little-endian 16-bit field at `i`.
pub open spec fn le16(d: Seq<u8>, i: int) -> int {
    d[i] as int + 256 * d[i + 1] as int
}

/// The local-file-header signature `50 4B 03 04` starts at `o`.
pub open spec fn signature_at(d: Seq<u8>, o: int) -> bool {
    &&& 0 <= o
    &&& o + 4 <= d.len()
    &&& d[o] == 0x50u8
    &&& d[o + 1] == 0x4bu8
    &&& d[o + 2] == 3u8
    &&& d[o + 3] == 4u8
}

/// Bit 0 of the general-purpose flags of the header at `o`.
pub open spec fn encrypted_at(d: Seq<u8>, o: int) -> bool {
    d[o + 6] & 1 == 1
}

/// The check byte of the header at `o`: the high byte of the modification
/// time when bit 3 (data descriptor) is set, else the high byte of the CRC.
pub open spec fn check_byte_at(d: Seq<u8>, o: int) -> u8 {
    if d[o + 6] & 8 == 8 {
        d[o + 11]
    } else {
        d[o + 17]
    }
}

/// Where the encryption header of the entry at `o` begins.
pub open spec fn header_start(d: Seq<u8>, o: int) -> int {
    o + 30 + le16(d, o + 26) + le16(d, o + 28)
}

/// Scanning from `o` on: the start of the first encrypted entry's encryption
/// header and its check byte, or why there is none.
pub open spec fn locate_from(d: Seq<u8>, o: int) -> Result<(int, u8), LocateError>
    decreases d.len() - o,
{
    if o < 0 || o + 4 > d.len() {
        Err(LocateError::NoEncryptedEntry)
    } else if !signature_at(d, o) {
        locate_from(d, o + 1)
    } else if o + 30 > d.len() {
        Err(LocateError::Truncated)
    } else if !encrypted_at(d, o) {
        locate_from(d, o + 1)
    } else if le16(d, o + 8) == AES_METHOD as int {
        Err(LocateError::UnsupportedEncryption)
    } else if header_start(d, o) + 12 > d.len() {
        Err(LocateError::Truncated)
    } else {
        Ok((header_start(d, o), check_byte_at(d, o)))
    }
}

/// A located header lies inside the bytes.
pub proof fn lemma_located_in_bounds(d: Seq<u8>, o: int)
    ensures
        locate_from(d, o) is Ok ==> 0 <= locate_from(d, o)->Ok_0.0 && locate_from(d, o)->Ok_0.0 + 12
            <= d.len(),
    decreases d.len() - o,
{
    if o >= 0 && o + 4 <= d.len() {
        lemma_located_in_bounds(d, o + 1);
    }
}

fn read_le16(d: &[u8], i: usize) -> (r: usize)
    requires
        i + 1 < d@.len(),
    ensures
        r as int == le16(d@, i as int),
        r < 65536,
{
    d[i] as usize + 256 * d[i + 1] as usize
}

/// Scans `data` for the first local header whose entry is encrypted and
/// returns its 12-byte encryption header and check byte.
pub fn locate_header(data: &[u8]) -> (r: Result<CryptoHeader, LocateError>)
    ensures
        r is Ok <==> locate_from(data@, 0) is Ok,
        r is Ok ==> {
            let (start, check) = locate_from(data@, 0)->Ok_0;
            &&& r->Ok_0.bytes@ == data@.subrange(start, start + 12)
            &&& r->Ok_0.check_byte == check
        },
        r is Err ==> r->Err_0 == locate_from(data@, 0)->Err_0,
        r is Ok ==> r->Ok_0.bytes@.len() == 12,
        locate_from(data@, 0) is Ok ==> 0 <= locate_from(data@, 0)->Ok_0.0 && locate_from(data@, 0)->Ok_0.0
            + 12 <= data@.len(),
{
    proof {
        lemma_located_in_bounds(data@, 0);
    }
    let n = data.len();
    let mut o: usize = 0;
    while o < n && n - o >= 4
        invariant
            n == data@.len(),
            o <= n,
            locate_from(data@, 0) == locate_from(data@, o as int),
        decreases n - o,
    {
        if data[o] == 0x50 && data[o + 1] == 0x4b && data[o + 2] == 3 && data[o + 3] == 4 {
            assert(signature_at(data@, o as int));
            if n - o < 30 {
                return Err(LocateError::Truncated);
            }
            if data[o + 6] & 1 == 1 {
                if read_le16(data, o + 8) == 99 {
                    return Err(LocateError::UnsupportedEncryption);
                }
                let name_len = read_le16(data, o + 26);
                let extra_len = read_le16(data, o + 28);
                if n - o - 30 < name_len + extra_len + 12 {
                    return Err(LocateError::Truncated);
                }
                let start = o + 30 + name_len + extra_len;
                let check = if data[o + 6] & 8 == 8 {
                    data[o + 11]
                } else {
                    data[o + 17]
                };
                let mut bytes: Vec<u8> = Vec::with_capacity(12);
                let mut j: usize = start;
                while j < start + 12
                    invariant
                        start <= j <= start + 12,
                        start + 12 <= n,
                        n == data@.len(),
                        bytes@ == data@.subrange(start as int, j as int),
                    decreases start + 12 - j,
                {
                    bytes.push(data[j]);
                    j = j + 1;
                }
                return Ok(CryptoHeader { bytes, check_byte: check });
            }
        }
        o = o + 1;
    }
    Err(LocateError::NoEncryptedEntry)
}

} // verus!
