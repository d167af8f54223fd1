//! The search itself: blocks of brute-force candidates and of dictionary
//! words run through the check-byte test, and through the full verifier
//! where that passes.
use vstd::prelude::*;
use vstd::arithmetic::power::pow;
use vstd::utf8::encode_utf8;
use crate::archive::{full_verify, zip_accepts};
use crate::odometer::{candidate, increment_password, index_to_bytes, lemma_index_of_candidate};
use crate::zipcrypto::{passes_check, FastOracle};

verus! {

/// A password is accepted: it passes the check-byte test of the oracle's
/// header and the full verifier on the archive.
pub open spec fn accepts(oracle: &FastOracle, data: Seq<u8>, password: Seq<u8>) -> bool {
    passes_check(oracle.header_bytes(), oracle.check_byte(), password) && zip_accepts(data, password)
}

/// What one block of the search gave: the password that was confirmed, if
/// any, and how many candidates were tested.
#[derive(Clone, Debug)]
pub struct BlockOutcome {
    pub found: Option<Vec<u8>>,
    pub tested: u64,
}

/// Tests the brute-force candidates with indices `start..end` in order,
/// stopping at the first that passes the check-byte test and the full
/// verifier. `tested` counts the candidates tried, the confirmed one included.
pub fn scan_block(
    data: &[u8],
    oracle: &FastOracle,
    charset: &[u8],
    length: usize,
    start: u64,
    end: u64,
) -> (r: BlockOutcome)
    requires
        oracle.wf(),
        charset@.len() > 0,
        charset@.no_duplicates(),
        start <= end,
        end <= pow(charset@.len() as int, length as nat),
    ensures
        r.tested <= end - start,
        r.found is None ==> r.tested == end - start,
        r.found is None ==> forall|k: nat|
            start <= k < end ==> !accepts(oracle, data@, #[trigger] candidate(k, charset@, length as nat)),
        r.found is Some ==> {
            &&& r.tested > 0
            &&& r.found->Some_0@ == candidate((start + r.tested - 1) as nat, charset@, length as nat)
            &&& accepts(oracle, data@, r.found->Some_0@)
            &&& forall|k: nat|
                start <= k < start + r.tested - 1 ==> !accepts(
                    oracle,
                    data@,
                    #[trigger] candidate(k, charset@, length as nat),
                )
        },
{
    if start == end {
        return BlockOutcome { found: None, tested: 0 };
    }
    let mut buf: Vec<u8> = vec![0u8; length];
    index_to_bytes(start, charset, &mut buf);
    let mut k: u64 = start;
    while k < end
        invariant
            oracle.wf(),
            charset@.len() > 0,
            charset@.no_duplicates(),
            start <= k <= end,
            end <= pow(charset@.len() as int, length as nat),
            buf@.len() == length,
            k < end ==> buf@ == candidate(k as nat, charset@, length as nat),
            forall|j: nat|
                start <= j < k ==> !accepts(oracle, data@, #[trigger] candidate(j, charset@, length as nat)),
        decreases end - k,
    {
        if oracle.check(buf.as_slice()) {
            if full_verify(data, buf.as_slice()) {
                return BlockOutcome { found: Some(buf), tested: k - start + 1 };
            }
        }
        assert(!accepts(oracle, data@, candidate(k as nat, charset@, length as nat)));
        if k + 1 < end {
            proof {
                lemma_index_of_candidate(k as nat, charset@, length as nat);
            }
            increment_password(&mut buf, charset);
        }
        k = k + 1;
    }
    BlockOutcome { found: None, tested: end - start }
}

/// What one block of the dictionary phase gave.
#[derive(Clone, Debug)]
pub struct WordOutcome {
    pub found: Option<String>,
    pub tested: u64,
}

/// The bytes a word is tested as: its UTF-8 encoding.
pub open spec fn word_bytes(w: Seq<char>) -> Seq<u8> {
    encode_utf8(w)
}

/// Tests `words[start..end]` in order, stopping at the first word that
/// passes the check-byte test and the full verifier.
pub fn scan_words(data: &[u8], oracle: &FastOracle, words: &Vec<String>, start: usize, end: usize) -> (r:
    WordOutcome)
    requires
        oracle.wf(),
        start <= end <= words@.len(),
    ensures
        r.tested <= end - start,
        r.found is None ==> r.tested == end - start,
        r.found is None ==> forall|i: int|
            start <= i < end ==> !accepts(oracle, data@, word_bytes(#[trigger] words@[i]@)),
        r.found is Some ==> {
            &&& r.tested > 0
            &&& r.found->Some_0@ == words@[start + r.tested - 1]@
            &&& accepts(oracle, data@, word_bytes(r.found->Some_0@))
            &&& forall|i: int|
                start <= i < start + r.tested - 1 ==> !accepts(
                    oracle,
                    data@,
                    word_bytes(#[trigger] words@[i]@),
                )
        },
{
    let mut i: usize = start;
    while i < end
        invariant
            oracle.wf(),
            start <= i <= end <= words@.len(),
            forall|j: int| start <= j < i ==> !accepts(oracle, data@, word_bytes(#[trigger] words@[j]@)),
        decreases end - i,
    {
        let w = &words[i];
        let bytes = w.as_str().as_bytes();
        if oracle.check(bytes) {
            if full_verify(data, bytes) {
                return WordOutcome { found: Some(w.clone()), tested: (i - start + 1) as u64 };
            }
        }
        assert(!accepts(oracle, data@, word_bytes(words@[i as int]@)));
        i = i + 1;
    }
    WordOutcome { found: None, tested: (end - start) as u64 }
}

} // verus!
