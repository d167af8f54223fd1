//! The run configuration, the alphabet it selects, and the size of the
//! search space it describes.
use vstd::prelude::*;
use vstd::arithmetic::power::pow;
use crate::dictionary::{base_word_count, base_word_count_spec};

verus! {

/// What a run searches: a length range, four alphabet toggles, and the
/// dictionary phase with extra words of the caller's.
#[derive(Clone, Debug)]
pub struct CrackConfig {
    pub min_length: usize,
    pub max_length: usize,
    pub use_lowercase: bool,
    pub use_uppercase: bool,
    pub use_numbers: bool,
    pub use_symbols: bool,
    pub use_dictionary: bool,
    pub custom_words: Vec<String>,
}

impl Default for CrackConfig {
    fn default() -> (r: Self)
        ensures
            r.min_length == 1,
            r.max_length == 4,
            r.use_lowercase,
            !r.use_uppercase,
            r.use_numbers,
            !r.use_symbols,
            r.use_dictionary,
            r.custom_words@.len() == 0,
    {
        CrackConfig {
            min_length: 1,
            max_length: 4,
            use_lowercase: true,
            use_uppercase: false,
            use_numbers: true,
            use_symbols: false,
            use_dictionary: true,
            custom_words: Vec::new(),
        }
    }
}

/// How many candidates the dictionary estimate counts for each word.
pub const MUTATION_FACTOR: u64 = 12;

pub open spec fn digit_bytes() -> Seq<u8> {
    Seq::new(10, |i: int| (48 + i) as u8)
}

pub open spec fn lowercase_bytes() -> Seq<u8> {
    Seq::new(26, |i: int| (97 + i) as u8)
}

pub open spec fn uppercase_bytes() -> Seq<u8> {
    Seq::new(26, |i: int| (65 + i) as u8)
}

/// The 32 symbols, in their fixed order.
pub open spec fn symbol_bytes() -> Seq<u8> {
    seq![
        33u8, 64, 35, 36, 37, 94, 38, 42, 40, 41, 45, 95, 61, 43, 91, 93, 123, 125, 124, 59, 58,
        39, 34, 44, 46, 60, 62, 63, 47, 126, 96, 92,
    ]
}

/// The alphabet of a configuration: digits, lowercase, uppercase, symbols,
/// each where enabled, in that order.
pub open spec fn alphabet_of(c: CrackConfig) -> Seq<u8> {
    (if c.use_numbers { digit_bytes() } else { Seq::empty() }) + (if c.use_lowercase {
        lowercase_bytes()
    } else {
        Seq::empty()
    }) + (if c.use_uppercase { uppercase_bytes() } else { Seq::empty() }) + (if c.use_symbols {
        symbol_bytes()
    } else {
        Seq::empty()
    })
}

/// The alphabet selected by a configuration, in enumeration order.
#[derive(Clone, Debug)]
pub struct CompactCharset {
    data: Vec<u8>,
}

fn push_range(v: &mut Vec<u8>, first: u8, count: u8)
    requires
        first as int + count as int <= 256,
    ensures
        final(v)@ == old(v)@ + Seq::new(count as nat, |i: int| (first + i) as u8),
{
    let ghost start = v@;
    let mut i: u8 = 0;
    while i < count
        invariant
            i <= count,
            first as int + count as int <= 256,
            v@ == start + Seq::new(i as nat, |k: int| (first + k) as u8),
        decreases count - i,
    {
        v.push(first + i);
        i = i + 1;
        assert(v@ == start + Seq::new(i as nat, |k: int| (first + k) as u8));
    }
}

fn push_symbols(v: &mut Vec<u8>)
    ensures
        final(v)@ == old(v)@ + symbol_bytes(),
{
    let ghost start = v@;
    v.push(33);
    v.push(64);
    v.push(35);
    v.push(36);
    v.push(37);
    v.push(94);
    v.push(38);
    v.push(42);
    v.push(40);
    v.push(41);
    v.push(45);
    v.push(95);
    v.push(61);
    v.push(43);
    v.push(91);
    v.push(93);
    v.push(123);
    v.push(125);
    v.push(124);
    v.push(59);
    v.push(58);
    v.push(39);
    v.push(34);
    v.push(44);
    v.push(46);
    v.push(60);
    v.push(62);
    v.push(63);
    v.push(47);
    v.push(126);
    v.push(96);
    v.push(92);
    assert(v@ == start + symbol_bytes());
}

impl CompactCharset {
    pub closed spec fn view(&self) -> Seq<u8> {
        self.data@
    }

    /// The alphabet of `config`.
    pub fn new(config: &CrackConfig) -> (r: Self)
        ensures
            r.view() == alphabet_of(*config),
            r.view().len() <= 94,
    {
        let mut data: Vec<u8> = Vec::with_capacity(94);
        if config.use_numbers {
            push_range(&mut data, 48, 10);
        }
        if config.use_lowercase {
            push_range(&mut data, 97, 26);
        }
        if config.use_uppercase {
            push_range(&mut data, 65, 26);
        }
        if config.use_symbols {
            push_symbols(&mut data);
        }
        let r = CompactCharset { data };
        assert(r.view() =~= alphabet_of(*config));
        r
    }

    pub fn as_slice(&self) -> (r: &[u8])
        ensures
            r@ == self.view(),
    {
        self.data.as_slice()
    }

    pub fn is_empty(&self) -> (r: bool)
        ensures
            r == (self.view().len() == 0),
    {
        self.data.len() == 0
    }

    pub fn len(&self) -> (r: usize)
        ensures
            r == self.view().len(),
    {
        self.data.len()
    }
}

pub open spec fn saturate(x: int) -> int {
    if x > u64::MAX {
        u64::MAX as int
    } else {
        x
    }
}

/// Number of strings of each length in `lo..=hi` over `b` symbols.
pub open spec fn combinations(b: nat, lo: int, hi: int) -> int
    decreases hi - lo + 1,
{
    if hi < lo {
        0
    } else {
        combinations(b, lo, hi - 1) + pow(b as int, hi as nat)
    }
}

/// What the estimator counts for a configuration, before saturation.
pub open spec fn estimate_of(c: CrackConfig, base_words: nat) -> int {
    combinations(alphabet_of(c).len(), c.min_length as int, c.max_length as int) + if c.use_dictionary {
        (base_words + c.custom_words@.len()) * MUTATION_FACTOR
    } else {
        0
    }
}

pub proof fn lemma_pow_nonneg(b: nat, e: nat)
    ensures
        pow(b as int, e) >= 0,
        b >= 1 ==> pow(b as int, e) >= 1,
    decreases e,
{
    reveal(pow);
    if e > 0 {
        lemma_pow_nonneg(b, (e - 1) as nat);
        assert(pow(b as int, e) == b * pow(b as int, (e - 1) as nat));
        if b >= 1 {
            assert(b * pow(b as int, (e - 1) as nat) >= 1) by (nonlinear_arith)
                requires
                    b >= 1,
                    pow(b as int, (e - 1) as nat) >= 1,
            ;
        } else {
            assert(b * pow(b as int, (e - 1) as nat) >= 0) by (nonlinear_arith)
                requires
                    b >= 0,
                    pow(b as int, (e - 1) as nat) >= 0,
            ;
        }
    }
}

proof fn lemma_combinations_nonneg(b: nat, lo: int, hi: int)
    ensures
        combinations(b, lo, hi) >= 0,
    decreases hi - lo + 1,
{
    if hi >= lo {
        lemma_combinations_nonneg(b, lo, hi - 1);
        lemma_pow_nonneg(b, hi as nat);
    }
}

/// `base` to the power `exp`, or `u64::MAX` where that does not fit.
pub fn saturating_pow(base: u64, exp: usize) -> (r: u64)
    ensures
        r == saturate(pow(base as int, exp as nat)),
{
    let mut r: u64 = 1;
    let mut i: usize = 0;
    proof {
        reveal(pow);
    }
    while i < exp
        invariant
            i <= exp,
            r == saturate(pow(base as int, i as nat)),
        decreases exp - i,
    {
        proof {
            reveal(pow);
            lemma_pow_nonneg(base as nat, i as nat);
            assert(pow(base as int, (i + 1) as nat) == base * pow(base as int, i as nat));
        }
        if r == u64::MAX {
            proof {
                if base == 0 {
                    reveal(pow);
                    if i > 0 {
                        assert(pow(0, i as nat) == 0 * pow(0, (i - 1) as nat));
                    }
                }
                assert(base >= 1);
                assert(base * pow(base as int, i as nat) >= pow(base as int, i as nat)) by (nonlinear_arith)
                    requires
                        base >= 1,
                        pow(base as int, i as nat) >= 0,
                ;
            }
        } else {
            assert(r == pow(base as int, i as nat));
            match r.checked_mul(base) {
                Some(x) => {
                    assert(x == r * base);
                    assert(r * base == base * pow(base as int, i as nat)) by (nonlinear_arith)
                        requires
                            r == pow(base as int, i as nat),
                    ;
                    r = x;
                },
                None => {
                    assert(r * base == base * pow(base as int, i as nat)) by (nonlinear_arith)
                        requires
                            r == pow(base as int, i as nat),
                    ;
                    r = u64::MAX;
                },
            }
        }
        i = i + 1;
    }
    r
}

/// The estimate for a configuration, given how many words the base list holds.
pub fn estimate_with_base(config: &CrackConfig, base_words: usize) -> (r: u64)
    ensures
        r == saturate(estimate_of(*config, base_words as nat)),
{
    let charset = CompactCharset::new(config);
    let b = charset.len() as u64;
    let mut total: u64 = 0;
    if config.min_length <= config.max_length {
        let mut length: usize = config.min_length;
        loop
            invariant_except_break
                total == saturate(combinations(b as nat, config.min_length as int, length as int - 1)),
            invariant
                config.min_length <= length <= config.max_length,
                b == alphabet_of(*config).len(),
            ensures
                total == saturate(combinations(b as nat, config.min_length as int, config.max_length as int)),
            decreases config.max_length - length,
        {
            let p = saturating_pow(b, length);
            proof {
                lemma_combinations_nonneg(b as nat, config.min_length as int, length as int - 1);
                lemma_pow_nonneg(b as nat, length as nat);
            }
            total = total.saturating_add(p);
            if length == config.max_length {
                break;
            }
            length = length + 1;
        }
    } else {
        assert(combinations(b as nat, config.min_length as int, config.max_length as int) == 0);
    }
    proof {
        lemma_combinations_nonneg(b as nat, config.min_length as int, config.max_length as int);
    }
    if config.use_dictionary {
        let words = (base_words as u64).saturating_add(config.custom_words.len() as u64);
        let extra = match words.checked_mul(MUTATION_FACTOR) {
            Some(x) => x,
            None => u64::MAX,
        };
        total = total.saturating_add(extra);
    }
    total
}

/// Total number of candidates a run under `config` may test: the strings of
/// every length in range over its alphabet, plus the dictionary estimate
/// when that phase is on. Saturates at `u64::MAX` instead of overflowing.
pub fn estimate_combinations(config: CrackConfig) -> (r: u64)
    ensures
        r == saturate(estimate_of(config, base_word_count_spec())),
{
    let n = base_word_count();
    estimate_with_base(&config, n)
}

/// No symbol of an alphabet appears twice in it.
pub proof fn lemma_alphabet_distinct(c: CrackConfig)
    ensures
        alphabet_of(c).no_duplicates(),
{
    let a = alphabet_of(c);
    let d = if c.use_numbers { digit_bytes() } else { Seq::empty() };
    let l = if c.use_lowercase { lowercase_bytes() } else { Seq::empty() };
    let u = if c.use_uppercase { uppercase_bytes() } else { Seq::empty() };
    let s = if c.use_symbols { symbol_bytes() } else { Seq::empty() };
    let sy = symbol_bytes();
    assert forall|i: int, j: int| 0 <= i < j < 32 implies sy[i] != sy[j] by {}
    assert forall|i: int| 0 <= i < 32 implies !(48 <= #[trigger] sy[i] <= 57) && !(65 <= sy[i] <= 90)
        && !(97 <= sy[i] <= 122) by {}
    assert(a == d + l + u + s);
    assert forall|i: int, j: int| 0 <= i < a.len() && 0 <= j < a.len() && i != j implies a[i] != a[j] by {
        let n1 = d.len() as int;
        let n2 = n1 + l.len();
        let n3 = n2 + u.len();
        if i < n1 {
            assert(a[i] == d[i]);
        } else if i < n2 {
            assert(a[i] == l[i - n1]);
        } else if i < n3 {
            assert(a[i] == u[i - n2]);
        } else {
            assert(a[i] == s[i - n3]);
        }
        if j < n1 {
            assert(a[j] == d[j]);
        } else if j < n2 {
            assert(a[j] == l[j - n1]);
        } else if j < n3 {
            assert(a[j] == u[j - n2]);
        } else {
            assert(a[j] == s[j - n3]);
        }
    }
}

} // verus!
