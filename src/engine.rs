//! Run-level decisions: what a run searches and in which phases, how the
//! brute-force space is cut into chunks, the state that workers share, and
//! the single-password test.
use vstd::prelude::*;
use vstd::utf8::encode_utf8;
use vstd::string::StrSliceExecFns;
use crate::archive::{entry_count, full_verify, zip_accepts, zip_entry_count};
use crate::charset::{
    alphabet_of, lemma_alphabet_distinct, lemma_pow_nonneg, saturate, saturating_pow, CompactCharset, CrackConfig,
};
use vstd::arithmetic::power::pow;
use crate::dictionary::{all_mutations, base_words_spec, dictionary_candidates, views};
use crate::odometer::candidate;
use crate::search::{scan_block, scan_words};
use crate::locator::{locate_from, locate_header, LocateError};
use crate::zipcrypto::{passes_check, FastOracle};

verus! {

/// Why a run cannot start.
#[derive(Clone, Copy, PartialEq, Eq, Debug, Structural)]
pub enum RunError {
    /// The first encrypted entry uses AES.
    UnsupportedEncryption,
    /// An encrypted entry's header runs past the end of the archive.
    Truncated,
    /// No entry of the archive is encrypted.
    NoEncryptedEntry,
    /// The archive's central directory cannot be read.
    MalformedArchive,
    /// The archive holds no entry.
    EmptyArchive,
    /// The alphabet is empty and the dictionary phase is off.
    EmptyAlphabet,
}

pub open spec fn run_error_of(e: LocateError) -> RunError {
    match e {
        LocateError::UnsupportedEncryption => RunError::UnsupportedEncryption,
        LocateError::Truncated => RunError::Truncated,
        LocateError::NoEncryptedEntry => RunError::NoEncryptedEntry,
    }
}

/// Only the digit toggle is on; brute force is then faster than the dictionary.
pub open spec fn only_digits(c: CrackConfig) -> bool {
    c.use_numbers && !c.use_lowercase && !c.use_uppercase && !c.use_symbols
}

/// What a run will do.
pub struct RunPlan {
    pub oracle: FastOracle,
    pub charset: CompactCharset,
    pub run_dictionary: bool,
    pub run_brute_force: bool,
}

/// Prepares a run over `data`: finds the encryption header, builds the
/// alphabet, decides the phases, and checks that the archive opens and is
/// not empty.
pub fn prepare_run(data: &[u8], config: &CrackConfig) -> (r: Result<RunPlan, RunError>)
    ensures
        locate_from(data@, 0) is Err ==> r == Err::<RunPlan, RunError>(
            run_error_of(locate_from(data@, 0)->Err_0),
        ),
        locate_from(data@, 0) is Ok && alphabet_of(*config).len() == 0 && !config.use_dictionary
            ==> r == Err::<RunPlan, RunError>(RunError::EmptyAlphabet),
        locate_from(data@, 0) is Ok && !(alphabet_of(*config).len() == 0 && !config.use_dictionary)
            ==> match zip_entry_count(data@) {
            None => r == Err::<RunPlan, RunError>(RunError::MalformedArchive),
            Some(n) => if n == 0 {
                r == Err::<RunPlan, RunError>(RunError::EmptyArchive)
            } else {
                r is Ok
            },
        },
        r is Ok ==> {
            let (start, check) = locate_from(data@, 0)->Ok_0;
            let plan = r->Ok_0;
            &&& locate_from(data@, 0) is Ok
            &&& plan.oracle.wf()
            &&& plan.oracle.header_bytes() == data@.subrange(start, start + 12)
            &&& plan.oracle.check_byte() == check
            &&& plan.charset.view() == alphabet_of(*config)
            &&& plan.run_dictionary == (config.use_dictionary && !only_digits(*config))
            &&& plan.run_brute_force == (alphabet_of(*config).len() > 0)
        },
{
    let header = match locate_header(data) {
        Ok(h) => h,
        Err(e) => {
            let re = match e {
                LocateError::UnsupportedEncryption => RunError::UnsupportedEncryption,
                LocateError::Truncated => RunError::Truncated,
                LocateError::NoEncryptedEntry => RunError::NoEncryptedEntry,
            };
            return Err(re);
        },
    };
    let charset = CompactCharset::new(config);
    if charset.is_empty() && !config.use_dictionary {
        return Err(RunError::EmptyAlphabet);
    }
    match entry_count(data) {
        None => return Err(RunError::MalformedArchive),
        Some(0) => return Err(RunError::EmptyArchive),
        Some(_) => {},
    }
    let oracle = FastOracle::new(&header);
    let only = config.use_numbers && !config.use_lowercase && !config.use_uppercase
        && !config.use_symbols;
    let run_brute_force = !charset.is_empty();
    Ok(RunPlan { oracle, charset, run_dictionary: config.use_dictionary && !only, run_brute_force })
}

/// Candidates per chunk: larger for small alphabets, to spread the
/// per-chunk cost over more candidates.
pub fn adaptive_chunk_size(charset_len: usize) -> (r: u64)
    ensures
        charset_len <= 16 ==> r == 16384,
        16 < charset_len <= 48 ==> r == 8192,
        48 < charset_len ==> r == 4096,
{
    if charset_len <= 16 {
        16384
    } else if charset_len <= 48 {
        8192
    } else {
        4096
    }
}

/// Candidates a worker tests between two looks at the found and pause flags.
pub const POLL_INTERVAL: u64 = 512;

/// How many chunks of `chunk_size` cover `0..total`.
pub fn chunk_count(total: u64, chunk_size: u64) -> (r: u64)
    requires
        chunk_size > 0,
    ensures
        r as int * chunk_size >= total,
        r > 0 ==> (r - 1) * chunk_size < total,
{
    let q = total / chunk_size;
    let m = total % chunk_size;
    assert(q * chunk_size + m == total && 0 <= m < chunk_size) by (nonlinear_arith)
        requires
            chunk_size > 0,
            q == total / chunk_size,
            m == total % chunk_size,
    ;
    if m == 0 {
        assert(q > 0 ==> (q - 1) * chunk_size < total) by (nonlinear_arith)
            requires
                q * chunk_size == total,
                chunk_size > 0,
        ;
        q
    } else {
        assert(q < u64::MAX) by (nonlinear_arith)
            requires
                q * chunk_size + m == total,
                chunk_size >= 2,
                total <= u64::MAX,
        ;
        assert((q + 1) * chunk_size >= total && q * chunk_size < total) by (nonlinear_arith)
            requires
                q * chunk_size + m == total,
                0 < m < chunk_size,
        ;
        q + 1
    }
}

/// The index range of chunk `index`: `chunk_size` candidates from
/// `index * chunk_size`, cut at `total`.
pub fn chunk_range(index: u64, chunk_size: u64, total: u64) -> (r: (u64, u64))
    requires
        chunk_size > 0,
        index * chunk_size < total,
    ensures
        r.0 == index * chunk_size,
        r.1 == if r.0 + chunk_size < total {
            r.0 + chunk_size
        } else {
            total as int
        },
{
    let start = index * chunk_size;
    let end = if total - start > chunk_size {
        start + chunk_size
    } else {
        total
    };
    (start, end)
}

/// State that the workers of one run share: the attempt tally and the
/// found slot, which keeps the first password written to it.
pub struct RunState {
    attempts: u64,
    found: Option<Vec<u8>>,
}

impl RunState {
    pub closed spec fn attempts_view(&self) -> nat {
        self.attempts as nat
    }

    pub closed spec fn found_view(&self) -> Option<Seq<u8>> {
        match self.found {
            Some(p) => Some(p@),
            None => None,
        }
    }

    /// A fresh run: nothing tested, nothing found.
    pub fn new() -> (r: Self)
        ensures
            r.attempts_view() == 0,
            r.found_view() is None,
    {
        RunState { attempts: 0, found: None }
    }

    /// Adds `n` tested candidates to the tally, saturating at `u64::MAX`.
    pub fn add_attempts(&mut self, n: u64)
        ensures
            final(self).attempts_view() == saturate(old(self).attempts_view() + n),
            final(self).attempts_view() >= old(self).attempts_view(),
            final(self).found_view() == old(self).found_view(),
    {
        self.attempts = self.attempts.saturating_add(n);
    }

    /// Records a confirmed password; the first one recorded stays.
    pub fn record_found(&mut self, password: Vec<u8>)
        ensures
            old(self).found_view() is Some ==> final(self).found_view() == old(self).found_view(),
            old(self).found_view() is None ==> final(self).found_view() == Some(password@),
            final(self).attempts_view() == old(self).attempts_view(),
    {
        if self.found.is_none() {
            self.found = Some(password);
        }
    }

    pub fn attempts(&self) -> (r: u64)
        ensures
            r == self.attempts_view(),
    {
        self.attempts
    }

    pub fn is_found(&self) -> (r: bool)
        ensures
            r == self.found_view() is Some,
    {
        self.found.is_some()
    }

    pub fn found(&self) -> (r: Option<Vec<u8>>)
        ensures
            r is Some == self.found_view() is Some,
            r is Some ==> Some(r->Some_0@) == self.found_view(),
    {
        match &self.found {
            Some(p) => Some(p.clone()),
            None => None,
        }
    }
}

/// Law of the found slot: once a password is recorded, later records,
/// however many, leave it as it was.
pub proof fn lemma_found_latches(first: Seq<u8>, later: Seq<Seq<u8>>)
    ensures
        later.fold_left(Some(first), |acc: Option<Seq<u8>>, p: Seq<u8>| if acc is Some {
            acc
        } else {
            Some(p)
        }) == Some(first),
    decreases later.len(),
{
    if later.len() > 0 {
        lemma_found_latches(first, later.drop_last());
    }
}

/// Tests one password: the check-byte test against the first encrypted
/// entry's header, then the full verifier. `false` where the archive has no
/// usable header.
pub fn test_zip_password(file_bytes: Vec<u8>, password: String) -> (r: bool)
    ensures
        r == (locate_from(file_bytes@, 0) is Ok && {
            let (start, check) = locate_from(file_bytes@, 0)->Ok_0;
            &&& passes_check(file_bytes@.subrange(start, start + 12), check, encode_utf8(password@))
            &&& zip_accepts(file_bytes@, encode_utf8(password@))
        }),
{
    let header = match locate_header(file_bytes.as_slice()) {
        Ok(h) => h,
        Err(_) => return false,
    };
    let oracle = FastOracle::new(&header);
    let bytes = password.as_str().as_bytes();
    if !oracle.check(bytes) {
        return false;
    }
    full_verify(file_bytes.as_slice(), bytes)
}

/// The tally after adding each count in turn, from zero.
pub open spec fn tally(counts: Seq<u64>) -> nat
    decreases counts.len(),
{
    if counts.len() == 0 {
        0
    } else {
        saturate(tally(counts.drop_last()) + counts.last()) as nat
    }
}

pub open spec fn sum(counts: Seq<u64>) -> nat
    decreases counts.len(),
{
    if counts.len() == 0 {
        0
    } else {
        (sum(counts.drop_last()) + counts.last()) as nat
    }
}

/// Law of the attempt tally: adding counts never lowers it, and it ends at
/// the total of the counts, or at `u64::MAX` where that total is larger.
pub proof fn lemma_tally_monotone(counts: Seq<u64>, i: int)
    requires
        0 <= i <= counts.len(),
    ensures
        tally(counts.subrange(0, i)) <= tally(counts),
        tally(counts) == saturate(sum(counts) as int),
    decreases counts.len(),
{
    if counts.len() > 0 {
        let p = counts.drop_last();
        if i < counts.len() {
            assert(counts.subrange(0, i) == p.subrange(0, i));
            lemma_tally_monotone(p, i);
        } else {
            assert(counts.subrange(0, i) == counts);
            lemma_tally_monotone(p, 0);
        }
    }
}

/// The outcome of a finished run, as reported to a host.
#[derive(Clone, Debug)]
pub struct CrackResult {
    pub success: bool,
    pub password: Option<String>,
    pub total_attempts: u64,
    pub elapsed_seconds: u64,
}

/// What a sequential run found, and how many candidates it tested.
#[derive(Clone, Debug)]
pub struct SearchReport {
    pub password: Option<Vec<u8>>,
    pub attempts: u64,
    pub from_dictionary: bool,
}

/// A password is accepted on `data`: the archive has a located header whose
/// check-byte test it passes, and the full verifier accepts it.
pub open spec fn run_accepts(data: Seq<u8>, password: Seq<u8>) -> bool {
    &&& locate_from(data, 0) is Ok
    &&& passes_check(
        data.subrange(locate_from(data, 0)->Ok_0.0, locate_from(data, 0)->Ok_0.0 + 12),
        locate_from(data, 0)->Ok_0.1,
        password,
    )
    &&& zip_accepts(data, password)
}

/// The plan keeps the dictionary phase.
pub open spec fn dictionary_runs(c: CrackConfig) -> bool {
    c.use_dictionary && !only_digits(c)
}

/// The distinct dictionary candidates of a configuration.
pub open spec fn dictionary_set(c: CrackConfig) -> Set<Seq<char>> {
    all_mutations(base_words_spec() + views(c.custom_words@)).to_set()
}

/// Candidates the dictionary phase tests.
pub open spec fn dictionary_tests(c: CrackConfig) -> int {
    if dictionary_runs(c) {
        dictionary_set(c).len() as int
    } else {
        0
    }
}

/// Candidates brute force tests at lengths `lo..=hi` over `b` symbols:
/// `b^len` for each, or `u64::MAX` where that is larger.
pub open spec fn searched(b: nat, lo: int, hi: int) -> int
    decreases hi - lo + 1,
{
    if hi < lo || b == 0 {
        0
    } else {
        searched(b, lo, hi - 1) + saturate(pow(b as int, hi as nat))
    }
}

/// No dictionary candidate is accepted, where the phase runs.
pub open spec fn dictionary_clear(data: Seq<u8>, c: CrackConfig) -> bool {
    dictionary_runs(c) ==> forall|w: Seq<char>|
        #[trigger] dictionary_set(c).contains(w) ==> !run_accepts(data, encode_utf8(w))
}

/// No brute-force candidate of a length in `c.min_length..hi`, nor of
/// length `hi` with an index below `k`, is accepted. With an empty
/// alphabet there is no brute force.
pub open spec fn brute_clear(data: Seq<u8>, c: CrackConfig, hi: int, k: int) -> bool {
    let a = alphabet_of(c);
    &&& forall|len: nat, j: nat|
        a.len() > 0 && c.min_length <= len < hi && j < saturate(pow(a.len() as int, len)) ==> !run_accepts(
            data,
            #[trigger] candidate(j, a, len),
        )
    &&& forall|j: nat| j < k ==> !run_accepts(data, #[trigger] candidate(j, a, hi as nat))
}

proof fn lemma_searched_nonneg(b: nat, lo: int, hi: int)
    ensures
        searched(b, lo, hi) >= 0,
    decreases hi - lo + 1,
{
    if hi >= lo && b > 0 {
        lemma_searched_nonneg(b, lo, hi - 1);
        lemma_pow_nonneg(b, hi as nat);
    }
}

proof fn lemma_saturate_add(x: int, y: int)
    requires
        x >= 0,
        y >= 0,
    ensures
        saturate(saturate(x) + y) == saturate(x + y),
{
}

/// Runs both phases on one thread: the dictionary first where the plan
/// keeps it, then each length from `min_length` to `max_length`, every
/// candidate in enumeration order. The password reported is the first
/// accepted candidate in that order; where none is reported, no candidate
/// of the search space is accepted. `attempts` counts the candidates
/// tested, saturating at `u64::MAX`.
pub fn crack_sequential(data: &[u8], config: &CrackConfig) -> (r: Result<SearchReport, RunError>)
    ensures
        locate_from(data@, 0) is Err ==> r == Err::<SearchReport, RunError>(
            run_error_of(locate_from(data@, 0)->Err_0),
        ),
        locate_from(data@, 0) is Ok && alphabet_of(*config).len() == 0 && !config.use_dictionary
            ==> r == Err::<SearchReport, RunError>(RunError::EmptyAlphabet),
        locate_from(data@, 0) is Ok && !(alphabet_of(*config).len() == 0 && !config.use_dictionary)
            ==> match zip_entry_count(data@) {
            None => r == Err::<SearchReport, RunError>(RunError::MalformedArchive),
            Some(n) => if n == 0 {
                r == Err::<SearchReport, RunError>(RunError::EmptyArchive)
            } else {
                r is Ok
            },
        },
        r is Ok && r->Ok_0.password is None ==> {
            &&& dictionary_clear(data@, *config)
            &&& brute_clear(data@, *config, config.max_length + 1, 0)
            &&& r->Ok_0.attempts == saturate(
                dictionary_tests(*config) + searched(
                    alphabet_of(*config).len(),
                    config.min_length as int,
                    config.max_length as int,
                ),
            )
        },
        r is Ok && r->Ok_0.password is Some ==> {
            let p = r->Ok_0.password->Some_0@;
            &&& run_accepts(data@, p)
            &&& r->Ok_0.from_dictionary ==> {
                &&& dictionary_runs(*config)
                &&& 1 <= r->Ok_0.attempts <= dictionary_tests(*config)
                &&& exists|w: Seq<char>| #[trigger] dictionary_set(*config).contains(w) && p == encode_utf8(w)
            }
            &&& !r->Ok_0.from_dictionary ==> {
                &&& dictionary_clear(data@, *config)
                &&& exists|len: nat, k: nat|
                    #![trigger candidate(k, alphabet_of(*config), len)]
                    config.min_length <= len <= config.max_length && k < saturate(
                        pow(alphabet_of(*config).len() as int, len),
                    ) && p == candidate(k, alphabet_of(*config), len) && brute_clear(
                        data@,
                        *config,
                        len as int,
                        k as int,
                    ) && r->Ok_0.attempts == saturate(
                        dictionary_tests(*config) + searched(
                            alphabet_of(*config).len(),
                            config.min_length as int,
                            len - 1,
                        ) + k + 1,
                    )
            }
        },
{
    let plan = match prepare_run(data, config) {
        Ok(p) => p,
        Err(e) => return Err(e),
    };
    let ghost d = data@;
    let ghost alph = alphabet_of(*config);
    let mut state = RunState::new();
    if plan.run_dictionary {
        let words = dictionary_candidates(&config.custom_words);
        let out = scan_words(data, &plan.oracle, &words, 0, words.len());
        state.add_attempts(out.tested);
        match out.found {
            Some(w) => {
                proof {
                    let i = (out.tested - 1) as int;
                    let all = all_mutations(base_words_spec() + views(config.custom_words@));
                    assert(views(words@)[i] == w@);
                    assert(views(words@).to_set().contains(w@));
                    assert(all.to_set().contains(w@));
                }
                let bytes = w.as_str().as_bytes_vec();
                return Ok(SearchReport { password: Some(bytes), attempts: state.attempts(), from_dictionary: true });
            },
            None => {},
        }
        proof {
            assert forall|w: Seq<char>| #[trigger] dictionary_set(*config).contains(w) implies !run_accepts(
                d,
                encode_utf8(w),
            ) by {
                assert(views(words@).to_set().contains(w));
                let i = choose|i: int| 0 <= i < views(words@).len() && views(words@)[i] == w;
                assert(words@[i]@ == w);
            }
        }
    }
    assert(dictionary_clear(d, *config));
    assert(state.attempts_view() == dictionary_tests(*config));
    if plan.run_brute_force && config.min_length <= config.max_length {
        let charset = plan.charset.as_slice();
        let b = plan.charset.len() as u64;
        proof {
            lemma_alphabet_distinct(*config);
        }
        let mut length: usize = config.min_length;
        loop
            invariant_except_break
                state.attempts_view() == saturate(
                    dictionary_tests(*config) + searched(b as nat, config.min_length as int, length - 1),
                ),
                brute_clear(d, *config, length as int, 0),
            invariant
                config.min_length <= length <= config.max_length,
                d == data@,
                alph == alphabet_of(*config),
                plan.oracle.wf(),
                charset@ == alph,
                b == charset@.len(),
                b > 0,
                charset@.no_duplicates(),
                locate_from(data@, 0) is Ok,
                plan.oracle.header_bytes() == data@.subrange(
                    locate_from(data@, 0)->Ok_0.0,
                    locate_from(data@, 0)->Ok_0.0 + 12,
                ),
                plan.oracle.check_byte() == locate_from(data@, 0)->Ok_0.1,
                dictionary_clear(d, *config),
                state.found_view() is None,
            ensures
                state.attempts_view() == saturate(
                    dictionary_tests(*config) + searched(b as nat, config.min_length as int, config.max_length as int),
                ),
                brute_clear(d, *config, config.max_length + 1, 0),
            decreases config.max_length - length,
        {
            let total = saturating_pow(b, length);
            proof {
                lemma_pow_nonneg(b as nat, length as nat);
                lemma_searched_nonneg(b as nat, config.min_length as int, length - 1);
            }
            let out = scan_block(data, &plan.oracle, charset, length, 0, total);
            let ghost before = state.attempts_view();
            state.add_attempts(out.tested);
            proof {
                lemma_saturate_add(
                    dictionary_tests(*config) + searched(b as nat, config.min_length as int, length - 1),
                    out.tested as int,
                );
                assert(searched(b as nat, config.min_length as int, length as int) == searched(
                    b as nat,
                    config.min_length as int,
                    length - 1,
                ) + total);
            }
            match out.found {
                Some(p) => {
                    let ghost k = (out.tested - 1) as nat;
                    assert(p@ == candidate(k, alph, length as nat));
                    assert(brute_clear(d, *config, length as int, k as int));
                    return Ok(SearchReport { password: Some(p), attempts: state.attempts(), from_dictionary: false });
                },
                None => {},
            }
            assert(brute_clear(d, *config, length + 1, 0)) by {
                assert forall|len: nat, j: nat|
                    alph.len() > 0 && config.min_length <= len < length + 1 && j < saturate(pow(alph.len() as int, len))
                        implies !run_accepts(d, #[trigger] candidate(j, alph, len)) by {
                    if len < length {
                        assert(brute_clear(d, *config, length as int, 0));
                    }
                }
            }
            if length == config.max_length {
                break;
            }
            length = length + 1;
        }
    } else {
        assert(searched(alph.len(), config.min_length as int, config.max_length as int) == 0);
        assert(brute_clear(d, *config, config.max_length + 1, 0));
    }
    Ok(SearchReport { password: None, attempts: state.attempts(), from_dictionary: false })
}

} // verus!
