use zip_password_cracker::archive::{entries_confirm, entry_count, entry_reports, full_verify, EntryRead, EntryReport};
use zip_password_cracker::charset::{estimate_combinations, estimate_with_base, saturating_pow, CompactCharset, CrackConfig};
use zip_password_cracker::dictionary::{base_word_count, dictionary_candidates, generate_mutations, split_wordlist};
use zip_password_cracker::engine::{
    adaptive_chunk_size, chunk_count, chunk_range, crack_sequential, prepare_run, test_zip_password, RunError,
    RunState,
};
use zip_password_cracker::locator::{locate_header, LocateError};
use zip_password_cracker::odometer::{increment_password, index_to_bytes};
use zip_password_cracker::search::{scan_block, scan_words};
use zip_password_cracker::zipcrypto::{crc_entry, keystream_byte, FastOracle, KeyState};

struct Keys {
    k0: u32,
    k1: u32,
    k2: u32,
}

fn table_entry(i: u32) -> u32 {
    let mut c = i;
    for _ in 0..8 {
        c = if c & 1 == 1 { (c >> 1) ^ 0xEDB8_8320 } else { c >> 1 };
    }
    c
}

impl Keys {
    fn new(password: &[u8]) -> Keys {
        let mut k = Keys { k0: 0x1234_5678, k1: 0x2345_6789, k2: 0x3456_7890 };
        for &b in password {
            k.update(b);
        }
        k
    }

    fn update(&mut self, b: u8) {
        self.k0 = (self.k0 >> 8) ^ table_entry((self.k0 ^ b as u32) & 0xff);
        self.k1 = self.k1.wrapping_add(self.k0 & 0xff).wrapping_mul(134775813).wrapping_add(1);
        self.k2 = (self.k2 >> 8) ^ table_entry((self.k2 ^ (self.k1 >> 24)) & 0xff);
    }

    fn stream(&self) -> u8 {
        let t = (self.k2 | 2) & 0xffff;
        ((t.wrapping_mul(t ^ 1) >> 8) & 0xff) as u8
    }

    fn encrypt(&mut self, plain: &[u8]) -> Vec<u8> {
        let mut out = Vec::new();
        for &p in plain {
            out.push(p ^ self.stream());
            self.update(p);
        }
        out
    }
}

fn push16(v: &mut Vec<u8>, x: u16) {
    v.extend_from_slice(&x.to_le_bytes());
}

fn push32(v: &mut Vec<u8>, x: u32) {
    v.extend_from_slice(&x.to_le_bytes());
}

/// A one-entry archive holding `content` stored under `name`, encrypted with
/// `password` when one is given; `method` is written as the compression method.
fn build_archive(name: &str, content: &[u8], password: Option<&[u8]>, method: u16) -> Vec<u8> {
    let crc = crc32fast::hash(content);
    let flags: u16 = if password.is_some() { 1 } else { 0 };
    let body = match password {
        Some(p) => {
            let mut keys = Keys::new(p);
            let mut header: Vec<u8> = (0..11u8).map(|i| i.wrapping_mul(37).wrapping_add(5)).collect();
            header.push((crc >> 24) as u8);
            let mut out = keys.encrypt(&header);
            out.extend(keys.encrypt(content));
            out
        }
        None => content.to_vec(),
    };
    let mut v = Vec::new();
    push32(&mut v, 0x0403_4b50);
    push16(&mut v, 20);
    push16(&mut v, flags);
    push16(&mut v, method);
    push16(&mut v, 0x6000);
    push16(&mut v, 0x5021);
    push32(&mut v, crc);
    push32(&mut v, body.len() as u32);
    push32(&mut v, content.len() as u32);
    push16(&mut v, name.len() as u16);
    push16(&mut v, 0);
    v.extend_from_slice(name.as_bytes());
    v.extend_from_slice(&body);
    let cd_start = v.len() as u32;
    push32(&mut v, 0x0201_4b50);
    push16(&mut v, 20);
    push16(&mut v, 20);
    push16(&mut v, flags);
    push16(&mut v, method);
    push16(&mut v, 0x6000);
    push16(&mut v, 0x5021);
    push32(&mut v, crc);
    push32(&mut v, body.len() as u32);
    push32(&mut v, content.len() as u32);
    push16(&mut v, name.len() as u16);
    push16(&mut v, 0);
    push16(&mut v, 0);
    push16(&mut v, 0);
    push16(&mut v, 0);
    push32(&mut v, 0);
    push32(&mut v, 0);
    v.extend_from_slice(name.as_bytes());
    let cd_size = v.len() as u32 - cd_start;
    push32(&mut v, 0x0605_4b50);
    push16(&mut v, 0);
    push16(&mut v, 0);
    push16(&mut v, 1);
    push16(&mut v, 1);
    push32(&mut v, cd_size);
    push32(&mut v, cd_start);
    push16(&mut v, 0);
    v
}

fn hello_archive(password: &str) -> Vec<u8> {
    build_archive("hello.txt", b"hi", Some(password.as_bytes()), 0)
}

fn config(lower: bool, upper: bool, digits: bool, symbols: bool, min: usize, max: usize, dict: bool) -> CrackConfig {
    CrackConfig {
        min_length: min,
        max_length: max,
        use_lowercase: lower,
        use_uppercase: upper,
        use_numbers: digits,
        use_symbols: symbols,
        use_dictionary: dict,
        custom_words: Vec::new(),
    }
}

fn oracle_for(data: &[u8]) -> FastOracle {
    let header = locate_header(data).unwrap();
    FastOracle::new(&header)
}

#[test]
fn crc_table_matches_polynomial() {
    assert_eq!(crc_entry(0), 0);
    assert_eq!(crc_entry(1), 0x7707_3096);
    assert_eq!(crc_entry(255), 0x2D02_EF8D);
}

#[test]
fn key_schedule_matches_reference_cipher() {
    let data = hello_archive("abc");
    let oracle = oracle_for(&data);
    let s = oracle.keys_for(b"abc");
    let r = Keys::new(b"abc");
    assert_eq!((s.k0, s.k1, s.k2), (r.k0, r.k1, r.k2));
    assert_eq!(keystream_byte(s), r.stream());
    let init = oracle.keys_for(b"");
    assert_eq!(init, KeyState { k0: 0x1234_5678, k1: 0x2345_6789, k2: 0x3456_7890 });
}

#[test]
fn fast_oracle_is_deterministic() {
    let data = hello_archive("abc");
    let oracle = oracle_for(&data);
    for p in [&b"abc"[..], b"abd", b"", b"zzzz"] {
        assert_eq!(oracle.check(p), oracle.check(p));
    }
}

#[test]
fn fast_oracle_accepts_true_password() {
    for pw in ["abc", "Password1", "x", "99999"] {
        let data = hello_archive(pw);
        assert!(oracle_for(&data).check(pw.as_bytes()));
    }
}

#[test]
fn fast_oracle_rejects_most_wrong_passwords() {
    let data = hello_archive("abc");
    let oracle = oracle_for(&data);
    let passing = (0u32..2000).filter(|i| oracle.check(format!("w{}", i).as_bytes())).count();
    assert!(passing < 40);
}

#[test]
fn locator_reads_header_and_check_byte() {
    let data = hello_archive("abc");
    let h = locate_header(&data).unwrap();
    let crc = crc32fast::hash(b"hi");
    assert_eq!(h.check_byte, (crc >> 24) as u8);
    assert_eq!(h.bytes, data[30 + 9..30 + 9 + 12].to_vec());
}

#[test]
fn locator_uses_mod_time_with_data_descriptor() {
    let mut data = hello_archive("abc");
    data[6] |= 8;
    let h = locate_header(&data).unwrap();
    assert_eq!(h.check_byte, 0x60);
}

#[test]
fn locator_rejects_aes() {
    let data = build_archive("a.txt", b"secret", Some(b"pw"), 99);
    assert_eq!(locate_header(&data).unwrap_err(), LocateError::UnsupportedEncryption);
}

#[test]
fn locator_reports_truncation() {
    let data = hello_archive("abc");
    assert_eq!(locate_header(&data[..45]).unwrap_err(), LocateError::Truncated);
    assert_eq!(locate_header(&data[..20]).unwrap_err(), LocateError::Truncated);
}

#[test]
fn locator_skips_plain_entries() {
    let data = build_archive("plain.txt", b"hello", None, 0);
    assert_eq!(locate_header(&data).unwrap_err(), LocateError::NoEncryptedEntry);
    assert_eq!(locate_header(&[]).unwrap_err(), LocateError::NoEncryptedEntry);
}

#[test]
fn charset_order_and_size() {
    let c = CompactCharset::new(&config(true, true, true, true, 1, 1, false));
    assert_eq!(c.len(), 94);
    let s = c.as_slice();
    assert_eq!(&s[..3], b"012");
    assert_eq!(s[10], b'a');
    assert_eq!(s[36], b'A');
    assert_eq!(&s[62..], b"!@#$%^&*()-_=+[]{}|;:'\",.<>?/~`\\");
    let mut sorted = s.to_vec();
    sorted.sort();
    sorted.dedup();
    assert_eq!(sorted.len(), 94);
    assert!(CompactCharset::new(&config(false, false, false, false, 1, 1, false)).is_empty());
    assert_eq!(CompactCharset::new(&config(true, false, true, false, 1, 1, false)).as_slice()[9], b'9');
}

#[test]
fn default_config() {
    let c = CrackConfig::default();
    assert_eq!((c.min_length, c.max_length), (1, 4));
    assert!(c.use_lowercase && c.use_numbers && c.use_dictionary);
    assert!(!c.use_uppercase && !c.use_symbols);
    assert!(c.custom_words.is_empty());
}

#[test]
fn estimate_exact_values() {
    assert_eq!(estimate_combinations(config(true, false, false, false, 3, 3, false)), 17576);
    assert_eq!(estimate_combinations(config(false, false, true, false, 1, 4, false)), 11110);
    assert_eq!(estimate_combinations(config(false, false, true, false, 3, 2, false)), 0);
    let mut c = config(false, false, true, false, 1, 1, true);
    c.custom_words = vec!["one".to_string(), "two".to_string()];
    assert_eq!(estimate_with_base(&c, 100), 10 + 102 * 12);
    assert_eq!(estimate_combinations(c), 10 + (base_word_count() as u64 + 2) * 12);
}

#[test]
fn estimate_saturates() {
    assert_eq!(estimate_combinations(config(true, true, true, true, 1, 20, false)), u64::MAX);
    assert_eq!(estimate_combinations(config(true, true, true, true, 9, 10, false)), u64::MAX);
    assert_eq!(saturating_pow(94, 9), 94u64.pow(9));
    assert_eq!(saturating_pow(94, 10), u64::MAX);
    assert_eq!(saturating_pow(2, 64), u64::MAX);
    assert_eq!(saturating_pow(2, 63), 1u64 << 63);
    assert_eq!(saturating_pow(0, 0), 1);
}

#[test]
fn odometer_seed() {
    let mut buf = vec![0u8; 3];
    index_to_bytes(28, b"abcdefghijklmnopqrstuvwxyz", &mut buf);
    assert_eq!(buf, b"abc".to_vec());
    let mut buf = vec![0u8; 4];
    index_to_bytes(1234, b"0123456789", &mut buf);
    assert_eq!(buf, b"1234".to_vec());
}

#[test]
fn odometer_enumerates_in_order() {
    let alphabet = b"xyz";
    let mut buf = vec![0u8; 3];
    index_to_bytes(0, alphabet, &mut buf);
    let mut seen = vec![buf.clone()];
    for _ in 1..27 {
        increment_password(&mut buf, alphabet);
        seen.push(buf.clone());
    }
    assert_eq!(seen[0], b"xxx".to_vec());
    assert_eq!(seen[1], b"xxy".to_vec());
    assert_eq!(seen[3], b"xyx".to_vec());
    assert_eq!(seen[26], b"zzz".to_vec());
    let mut sorted = seen.clone();
    sorted.sort();
    sorted.dedup();
    assert_eq!(sorted, seen);
    for (k, s) in seen.iter().enumerate() {
        let mut b = vec![0u8; 3];
        index_to_bytes(k as u64, alphabet, &mut b);
        assert_eq!(&b, s);
    }
}

#[test]
fn mutations_of_password() {
    let m = generate_mutations("password");
    let expected = [
        "password", "PASSWORD", "Password", "password1", "password12", "password123", "password!", "password1!",
        "password0", "password00", "password01", "password69", "password007", "p@$$w0rd",
    ];
    assert_eq!(m, expected.iter().map(|s| s.to_string()).collect::<Vec<_>>());
}

#[test]
fn mutations_without_leet_or_capital() {
    let m = generate_mutations("xyz");
    assert_eq!(m.len(), 13);
    assert_eq!(m[1], "XYZ");
    assert_eq!(m[2], "Xyz");
    let e = generate_mutations("");
    assert_eq!(e.len(), 12);
    assert_eq!(e[2], "1");
    let n = generate_mutations("9lives");
    assert_eq!(n[2], "9lives");
    assert_eq!(n[1], "9LIVES");
    assert_eq!(n[13], "9l1v3$");
}

#[test]
fn wordlist_splitting() {
    let w = split_wordlist("alpha\r\nbeta\n\n\r\ngamma");
    assert_eq!(w, vec!["alpha".to_string(), "beta".to_string(), "gamma".to_string()]);
    assert!(split_wordlist("").is_empty());
    assert_eq!(split_wordlist("one\n"), vec!["one".to_string()]);
}

#[test]
fn candidates_sorted_and_unique() {
    let c = dictionary_candidates(&vec!["abc".to_string(), "abc".to_string()]);
    assert!(c.windows(2).all(|w| w[0] < w[1]));
    assert!(c.contains(&"abc".to_string()));
    assert!(c.contains(&"ABC".to_string()));
    assert!(c.contains(&"@bc".to_string()));
    assert!(c.contains(&"password123".to_string()));
}

#[test]
fn full_verifier_accepts_only_true_password() {
    let data = hello_archive("abc");
    assert!(full_verify(&data, b"abc"));
    assert!(!full_verify(&data, b"abd"));
    assert!(!full_verify(b"not a zip", b"abc"));
    assert!(test_zip_password(data.clone(), "abc".to_string()));
    assert!(!test_zip_password(data, "abcd".to_string()));
}

#[test]
fn full_verifier_needs_encrypted_entry() {
    let data = build_archive("plain.txt", b"hello", None, 0);
    assert!(!full_verify(&data, b""));
    assert!(!full_verify(&data, b"abc"));
}

#[test]
fn entry_reports_decide() {
    let good = EntryRead::Read { content: b"hi".to_vec(), declared_crc: crc32fast::hash(b"hi"), declared_size: 2 };
    let bad_crc = EntryRead::Read { content: b"hi".to_vec(), declared_crc: 1, declared_size: 2 };
    let bad_size = EntryRead::Read { content: b"hi".to_vec(), declared_crc: crc32fast::hash(b"hi"), declared_size: 3 };
    let rep = |encrypted: bool, read: &EntryRead| EntryReport { encrypted, read: read.clone() };
    assert!(entries_confirm(&vec![rep(true, &good)]));
    assert!(entries_confirm(&vec![rep(false, &bad_crc), rep(true, &good)]));
    assert!(!entries_confirm(&vec![rep(true, &good), rep(true, &bad_crc)]));
    assert!(!entries_confirm(&vec![rep(true, &bad_size)]));
    assert!(!entries_confirm(&vec![rep(true, &EntryRead::ReadFailed)]));
    assert!(!entries_confirm(&vec![rep(true, &EntryRead::WrongPassword)]));
    assert!(!entries_confirm(&vec![rep(false, &good)]));
    assert!(!entries_confirm(&Vec::new()));
}

#[test]
fn scan_block_finds_and_counts() {
    let data = hello_archive("abc");
    let oracle = oracle_for(&data);
    let alphabet = b"abcdefghijklmnopqrstuvwxyz";
    let out = scan_block(&data, &oracle, alphabet, 3, 0, 17576);
    assert_eq!(out.found, Some(b"abc".to_vec()));
    assert_eq!(out.tested, 29);
    let miss = scan_block(&data, &oracle, alphabet, 3, 29, 600);
    assert_eq!(miss.found, None);
    assert_eq!(miss.tested, 571);
    let from_mid = scan_block(&data, &oracle, alphabet, 3, 20, 30);
    assert_eq!(from_mid.found, Some(b"abc".to_vec()));
    assert_eq!(from_mid.tested, 9);
}

#[test]
fn chunk_arithmetic() {
    assert_eq!(adaptive_chunk_size(10), 16384);
    assert_eq!(adaptive_chunk_size(36), 8192);
    assert_eq!(adaptive_chunk_size(94), 4096);
    assert_eq!(chunk_count(17576, 8192), 3);
    assert_eq!(chunk_count(16384, 8192), 2);
    assert_eq!(chunk_count(0, 8192), 0);
    assert_eq!(chunk_count(u64::MAX, 4096), u64::MAX / 4096 + 1);
    assert_eq!(chunk_range(2, 8192, 17576), (16384, 17576));
    assert_eq!(chunk_range(0, 8192, 17576), (0, 8192));
}

#[test]
fn attempt_tally_is_monotone_and_saturates() {
    let mut s = RunState::new();
    assert_eq!(s.attempts(), 0);
    let mut last = 0;
    for n in [0u64, 2048, 5, 1 << 40] {
        s.add_attempts(n);
        assert!(s.attempts() >= last);
        last = s.attempts();
    }
    assert_eq!(s.attempts(), 2053 + (1 << 40));
    s.add_attempts(u64::MAX);
    assert_eq!(s.attempts(), u64::MAX);
    s.add_attempts(7);
    assert_eq!(s.attempts(), u64::MAX);
}

#[test]
fn found_flag_latches() {
    let mut s = RunState::new();
    assert!(!s.is_found());
    s.record_found(b"first".to_vec());
    s.record_found(b"second".to_vec());
    assert!(s.is_found());
    assert_eq!(s.found(), Some(b"first".to_vec()));
    let fresh = RunState::new();
    assert!(!fresh.is_found());
    assert_eq!(fresh.found(), None);
}

#[test]
fn brute_force_finds_abc() {
    let data = hello_archive("abc");
    let r = crack_sequential(&data, &config(true, false, false, false, 3, 3, false)).unwrap();
    assert_eq!(r.password, Some(b"abc".to_vec()));
    assert!(r.attempts <= 26 * 26 * 26);
    assert!(!r.from_dictionary);
}

#[test]
fn dictionary_custom_word_abc() {
    let data = hello_archive("abc");
    let oracle = oracle_for(&data);
    let words = generate_mutations("abc");
    let out = scan_words(&data, &oracle, &words, 0, words.len());
    assert_eq!(out.found, Some("abc".to_string()));
    assert!(out.tested < 20);
    let mut c = config(false, false, false, false, 1, 1, true);
    c.custom_words = vec!["abc".to_string()];
    let r = crack_sequential(&data, &c).unwrap();
    assert_eq!(r.password, Some(b"abc".to_vec()));
    assert!(r.from_dictionary);
}

#[test]
fn digits_only_exhausts() {
    let data = hello_archive("abc");
    let r = crack_sequential(&data, &config(false, false, true, false, 1, 4, true)).unwrap();
    assert_eq!(r.password, None);
    assert_eq!(r.attempts, 11110);
}

#[test]
fn dictionary_finds_password1() {
    let data = hello_archive("Password1");
    let r = crack_sequential(&data, &config(true, false, false, false, 1, 2, true)).unwrap();
    assert_eq!(r.password, Some(b"Password1".to_vec()));
    assert!(r.from_dictionary);
}

#[test]
fn aes_archive_is_rejected() {
    let data = build_archive("a.txt", b"secret", Some(b"pw"), 99);
    let c = config(true, false, false, false, 1, 3, true);
    assert_eq!(prepare_run(&data, &c).err(), Some(RunError::UnsupportedEncryption));
    assert_eq!(crack_sequential(&data, &c).err(), Some(RunError::UnsupportedEncryption));
}

#[test]
fn run_errors() {
    let data = hello_archive("abc");
    let none = config(false, false, false, false, 1, 3, false);
    assert_eq!(prepare_run(&data, &none).err(), Some(RunError::EmptyAlphabet));
    let plain = build_archive("plain.txt", b"hello", None, 0);
    assert_eq!(prepare_run(&plain, &config(true, false, false, false, 1, 1, false)).err(), Some(RunError::NoEncryptedEntry));
    let mut broken = data.clone();
    let n = broken.len();
    broken[n - 22] = 0;
    assert_eq!(prepare_run(&broken, &config(true, false, false, false, 1, 1, false)).err(), Some(RunError::MalformedArchive));
    let plan = prepare_run(&data, &config(false, false, true, false, 1, 1, true)).ok().unwrap();
    assert!(!plan.run_dictionary);
    assert!(plan.run_brute_force);
    let plan = prepare_run(&data, &config(false, false, false, false, 1, 1, true)).ok().unwrap();
    assert!(plan.run_dictionary);
    assert!(!plan.run_brute_force);
}

/// Two stored entries in one archive, each with its own password.
fn two_entry_archive(first: &str, second: &str) -> Vec<u8> {
    let a = build_archive("a.txt", b"alpha", Some(first.as_bytes()), 0);
    let b = build_archive("b.txt", b"beta!", Some(second.as_bytes()), 0);
    let local = |v: &Vec<u8>| {
        let cd = u32::from_le_bytes(v[v.len() - 6..v.len() - 2].try_into().unwrap()) as usize;
        (v[..cd].to_vec(), v[cd..v.len() - 22].to_vec())
    };
    let (la, ca) = local(&a);
    let (lb, mut cb) = local(&b);
    let off = la.len() as u32;
    cb[42..46].copy_from_slice(&off.to_le_bytes());
    let mut v = la.clone();
    v.extend_from_slice(&lb);
    let cd_start = v.len() as u32;
    v.extend_from_slice(&ca);
    v.extend_from_slice(&cb);
    let cd_size = v.len() as u32 - cd_start;
    push32(&mut v, 0x0605_4b50);
    push16(&mut v, 0);
    push16(&mut v, 0);
    push16(&mut v, 2);
    push16(&mut v, 2);
    push32(&mut v, cd_size);
    push32(&mut v, cd_start);
    push16(&mut v, 0);
    v
}

#[test]
fn full_verifier_checks_every_encrypted_entry() {
    let same = two_entry_archive("k3y", "k3y");
    assert_eq!(entry_count(&same), Some(2));
    assert!(full_verify(&same, b"k3y"));
    let mixed = two_entry_archive("k3y", "other");
    assert!(!full_verify(&mixed, b"k3y"));
    assert!(!full_verify(&mixed, b"other"));
    let reports = entry_reports(&mixed, b"k3y").unwrap();
    assert_eq!(reports.len(), 2);
    assert!(reports[0].encrypted && reports[1].encrypted);
    assert!(matches!(reports[0].read, EntryRead::Read { .. }));
    assert!(!matches!(reports[1].read, EntryRead::Read { .. }) || !entries_confirm(&reports));
}

#[test]
fn entry_count_of_archives() {
    assert_eq!(entry_count(&hello_archive("abc")), Some(1));
    assert_eq!(entry_count(b"not a zip"), None);
    assert!(entry_reports(b"not a zip", b"abc").is_none());
}

#[test]
fn brute_force_attempts_are_exact() {
    let data = hello_archive("abc");
    let r = crack_sequential(&data, &config(true, false, false, false, 3, 3, false)).unwrap();
    assert_eq!(r.attempts, 29);
    let r = crack_sequential(&data, &config(true, false, false, false, 2, 3, false)).unwrap();
    assert_eq!(r.attempts, 26 * 26 + 29);
    assert_eq!(r.password, Some(b"abc".to_vec()));
}

#[test]
fn second_run_finds_password_again() {
    let data = hello_archive("abc");
    let c = config(true, false, false, false, 3, 3, false);
    let first = crack_sequential(&data, &c).unwrap();
    let second = crack_sequential(&data, &c).unwrap();
    assert_eq!(first.password, Some(b"abc".to_vec()));
    assert_eq!(second.password, first.password);
    assert_eq!(second.attempts, first.attempts);
}

#[test]
fn dictionary_attempts_count_distinct_candidates() {
    let data = hello_archive("zzzzzzzz");
    let mut c = config(false, false, false, false, 1, 1, true);
    c.custom_words = vec!["abc".to_string(), "abc".to_string()];
    let r = crack_sequential(&data, &c).unwrap();
    assert_eq!(r.password, None);
    assert_eq!(r.attempts as usize, dictionary_candidates(&c.custom_words).len());
}
