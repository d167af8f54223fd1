//! The ZipCrypto stream cipher: key schedule, keystream and the cheap
//! check-byte test run against an entry's 12-byte encryption header.
use vstd::prelude::*;

verus! {

/// Reflected polynomial of the ZIP CRC-32.
pub const CRC_POLY: u32 = 0xEDB8_8320;

/// One bit step of the reflected CRC-32 register.
pub open spec fn crc_step(c: u32) -> u32 {
    if c & 1 == 1 {
        (c >> 1) ^ CRC_POLY
    } else {
        c >> 1
    }
}

pub open spec fn crc_rounds(c: u32, n: nat) -> u32
    decreases n,
{
    if n == 0 {
        c
    } else {
        crc_rounds(crc_step(c), (n - 1) as nat)
    }
}

/// Entry `i` of the CRC table: eight register steps, no final inversion.
pub open spec fn crc_table_entry(i: u32) -> u32 {
    crc_rounds(i, 8)
}

/// The three 32-bit words of the cipher state.
#[derive(Clone, Copy, PartialEq, Eq, Debug, Structural)]
pub struct KeyState {
    pub k0: u32,
    pub k1: u32,
    pub k2: u32,
}

pub open spec fn initial_keys() -> KeyState {
    KeyState { k0: 0x1234_5678, k1: 0x2345_6789, k2: 0x3456_7890 }
}

/// The state after feeding one plaintext byte.
#[verifier::opaque]
pub open spec fn update_keys(s: KeyState, b: u8) -> KeyState {
    let k0 = (s.k0 >> 8) ^ crc_table_entry((s.k0 ^ (b as u32)) & 0xff);
    let k1 = s.k1.wrapping_add(k0 & 0xff).wrapping_mul(134775813).wrapping_add(1);
    let k2 = (s.k2 >> 8) ^ crc_table_entry((s.k2 ^ (k1 >> 24)) & 0xff);
    KeyState { k0, k1, k2 }
}

/// The keystream byte that the state masks the next byte with.
#[verifier::opaque]
pub open spec fn stream_byte(s: KeyState) -> u8 {
    let t: u32 = (s.k2 | 2) & 0xffff;
    let p: u32 = (t * (t ^ 1)) as u32;
    ((p >> 8) & 0xff) as u8
}

/// The state after feeding every byte of `bytes`, in order.
pub open spec fn keys_over(s: KeyState, bytes: Seq<u8>) -> KeyState
    decreases bytes.len(),
{
    if bytes.len() == 0 {
        s
    } else {
        update_keys(keys_over(s, bytes.drop_last()), bytes.last())
    }
}

/// The state that a password sets up.
pub open spec fn password_keys(password: Seq<u8>) -> KeyState {
    keys_over(initial_keys(), password)
}

/// Decrypting `cipher` from state `s`: each plain byte is fed back into the
/// schedule. Gives the state afterwards and the plain bytes.
pub open spec fn decrypt_from(s: KeyState, cipher: Seq<u8>) -> (KeyState, Seq<u8>)
    decreases cipher.len(),
{
    if cipher.len() == 0 {
        (s, Seq::empty())
    } else {
        let (t, plain) = decrypt_from(s, cipher.drop_last());
        let p = cipher.last() ^ stream_byte(t);
        (update_keys(t, p), plain.push(p))
    }
}

/// Encrypting `plain` from state `s`, as an archiver does.
pub open spec fn encrypt_from(s: KeyState, plain: Seq<u8>) -> (KeyState, Seq<u8>)
    decreases plain.len(),
{
    if plain.len() == 0 {
        (s, Seq::empty())
    } else {
        let (t, cipher) = encrypt_from(s, plain.drop_last());
        (update_keys(t, plain.last()), cipher.push(plain.last() ^ stream_byte(t)))
    }
}

/// Whether `password` passes the check-byte test of a 12-byte header: the
/// twelfth decrypted byte equals `check`.
pub open spec fn passes_check(header: Seq<u8>, check: u8, password: Seq<u8>) -> bool {
    decrypt_from(password_keys(password), header).1[11] == check
}

pub proof fn lemma_xor_involution(p: u8, k: u8)
    ensures
        (p ^ k) ^ k == p,
{
    assert((p ^ k) ^ k == p) by (bit_vector);
}

/// Decryption undoes encryption from the same state, and leaves the cipher
/// in the same state.
pub proof fn lemma_decrypt_encrypt(s: KeyState, plain: Seq<u8>)
    ensures
        decrypt_from(s, encrypt_from(s, plain).1) == (encrypt_from(s, plain).0, plain),
        encrypt_from(s, plain).1.len() == plain.len(),
    decreases plain.len(),
{
    if plain.len() > 0 {
        let init = plain.drop_last();
        lemma_decrypt_encrypt(s, init);
        let (t, cipher) = encrypt_from(s, init);
        let k = stream_byte(t);
        let c = cipher.push(plain.last() ^ k);
        assert(encrypt_from(s, plain).1 == c);
        assert(c.drop_last() == cipher);
        assert(c.last() == plain.last() ^ k);
        lemma_xor_involution(plain.last(), k);
        assert(init.push(plain.last()) == plain);
        assert(decrypt_from(s, c) == (update_keys(t, plain.last()), init.push(plain.last())));
    }
}

/// A password never fails the check-byte test of a header that it encrypted:
/// if the header is the encryption under `password` of twelve plain bytes
/// whose last is the check byte, the test passes.
pub proof fn lemma_true_password_passes(header: Seq<u8>, check: u8, password: Seq<u8>, plain: Seq<u8>)
    requires
        plain.len() == 12,
        plain[11] == check,
        header == encrypt_from(password_keys(password), plain).1,
    ensures
        passes_check(header, check, password),
{
    lemma_decrypt_encrypt(password_keys(password), plain);
}

pub proof fn lemma_decrypt_len(s: KeyState, cipher: Seq<u8>)
    ensures
        decrypt_from(s, cipher).1.len() == cipher.len(),
    decreases cipher.len(),
{
    if cipher.len() > 0 {
        lemma_decrypt_len(s, cipher.drop_last());
    }
}

/// The encryption header of an entry and the byte its last plain byte must equal.
#[derive(Clone, Debug)]
pub struct CryptoHeader {
    pub bytes: Vec<u8>,
    pub check_byte: u8,
}

/// Computes one entry of the CRC table.
pub fn crc_entry(i: u32) -> (r: u32)
    ensures
        r == crc_table_entry(i),
{
    let mut c: u32 = i;
    let mut n: u32 = 0;
    while n < 8
        invariant
            n <= 8,
            crc_rounds(c, (8 - n) as nat) == crc_table_entry(i),
        decreases 8 - n,
    {
        assert(crc_rounds(c, (8 - n) as nat) == crc_rounds(crc_step(c), (8 - n - 1) as nat));
        c = if c & 1 == 1 {
            (c >> 1) ^ CRC_POLY
        } else {
            c >> 1
        };
        n = n + 1;
    }
    c
}

/// The keystream byte of a state.
pub fn keystream_byte(s: KeyState) -> (r: u8)
    ensures
        r == stream_byte(s),
{
    reveal(stream_byte);
    let k2 = s.k2;
    let t: u32 = (k2 | 2) & 0xffff;
    assert(t <= 0xffff) by (bit_vector)
        requires
            t == (k2 | 2) & 0xffff,
    ;
    let u: u32 = t ^ 1;
    assert(u <= 0xffff) by (bit_vector)
        requires
            u == t ^ 1,
            t <= 0xffff,
    ;
    assert(t * u <= 0xffff * 0xffff) by (nonlinear_arith)
        requires
            t <= 0xffff,
            u <= 0xffff,
    ;
    let p: u32 = t * u;
    ((p >> 8) & 0xff) as u8
}

/// The check-byte test for one header, with the CRC table built once.
pub struct FastOracle {
    table: Vec<u32>,
    header: Vec<u8>,
    check: u8,
}

impl FastOracle {
    pub closed spec fn header_bytes(&self) -> Seq<u8> {
        self.header@
    }

    pub closed spec fn check_byte(&self) -> u8 {
        self.check
    }

    pub closed spec fn wf(&self) -> bool {
        &&& self.table@.len() == 256
        &&& forall|i: int| 0 <= i < 256 ==> self.table@[i] == crc_table_entry(i as u32)
        &&& self.header@.len() == 12
    }

    /// Builds the oracle for a 12-byte header.
    pub fn new(header: &CryptoHeader) -> (r: Self)
        requires
            header.bytes@.len() == 12,
        ensures
            r.wf(),
            r.header_bytes() == header.bytes@,
            r.check_byte() == header.check_byte,
    {
        let mut table: Vec<u32> = Vec::with_capacity(256);
        let mut i: u32 = 0;
        while i < 256
            invariant
                i <= 256,
                table@.len() == i,
                forall|j: int| 0 <= j < i ==> table@[j] == crc_table_entry(j as u32),
            decreases 256 - i,
        {
            let e = crc_entry(i);
            table.push(e);
            i = i + 1;
        }
        FastOracle { table, header: header.bytes.clone(), check: header.check_byte }
    }

    /// One step of the key schedule.
    pub fn update(&self, s: KeyState, b: u8) -> (r: KeyState)
        requires
            self.wf(),
        ensures
            r == update_keys(s, b),
    {
        reveal(update_keys);
        let k0_in = s.k0;
        let i0: u32 = (k0_in ^ (b as u32)) & 0xff;
        assert(i0 < 256) by (bit_vector)
            requires
                i0 == (k0_in ^ (b as u32)) & 0xff,
        ;
        let k0: u32 = (s.k0 >> 8) ^ self.table[i0 as usize];
        let k1: u32 = s.k1.wrapping_add(k0 & 0xff).wrapping_mul(134775813).wrapping_add(1);
        let k2_in = s.k2;
        let i2: u32 = (k2_in ^ (k1 >> 24)) & 0xff;
        assert(i2 < 256) by (bit_vector)
            requires
                i2 == (k2_in ^ (k1 >> 24)) & 0xff,
        ;
        let k2: u32 = (s.k2 >> 8) ^ self.table[i2 as usize];
        KeyState { k0, k1, k2 }
    }

    /// The state that `password` sets up.
    pub fn keys_for(&self, password: &[u8]) -> (r: KeyState)
        requires
            self.wf(),
        ensures
            r == password_keys(password@),
    {
        let mut s = KeyState { k0: 0x1234_5678, k1: 0x2345_6789, k2: 0x3456_7890 };
        let mut i: usize = 0;
        while i < password.len()
            invariant
                self.wf(),
                i <= password@.len(),
                s == keys_over(initial_keys(), password@.subrange(0, i as int)),
            decreases password@.len() - i,
        {
            let ghost pre = password@.subrange(0, i as int);
            assert(password@.subrange(0, i as int + 1).drop_last() == pre);
            s = self.update(s, password[i]);
            i = i + 1;
        }
        assert(password@.subrange(0, password@.len() as int) == password@);
        s
    }

    /// Whether `password` passes the check-byte test. Uses no heap.
    pub fn check(&self, password: &[u8]) -> (r: bool)
        requires
            self.wf(),
        ensures
            r == passes_check(self.header_bytes(), self.check_byte(), password@),
    {
        let start = self.keys_for(password);
        let mut s = start;
        let mut j: usize = 0;
        while j < 11
            invariant
                self.wf(),
                j <= 11,
                s == decrypt_from(start, self.header@.subrange(0, j as int)).0,
            decreases 11 - j,
        {
            assert(self.header@.subrange(0, j as int + 1).drop_last() == self.header@.subrange(0, j as int));
            let k = keystream_byte(s);
            let p = self.header[j] ^ k;
            s = self.update(s, p);
            j = j + 1;
        }
        let last = self.header[11] ^ keystream_byte(s);
        proof {
            let h = self.header@;
            assert(h.drop_last() == h.subrange(0, 11));
            lemma_decrypt_len(start, h.drop_last());
        }
        last == self.check
    }
}

} // verus!
