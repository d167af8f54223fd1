//! Brute-force enumeration: a candidate buffer read as a big-endian number
//! in base `alphabet.len()`, seeded from an index and advanced in place.
use vstd::prelude::*;
use vstd::arithmetic::power::pow;
use vstd::arithmetic::div_mod::lemma_fundamental_div_mod;

verus! {

/// The base-`b` digits of `k`, most significant first, `n` of them.
pub open spec fn digits(k: nat, b: nat, n: nat) -> Seq<nat>
    recommends
        b > 0,
    decreases n,
{
    if n == 0 || b == 0 {
        Seq::empty()
    } else {
        digits(k / b, b, (n - 1) as nat).push(k % b)
    }
}

/// The number that a digit sequence stands for in base `b`.
pub open spec fn value(ds: Seq<nat>, b: nat) -> nat
    decreases ds.len(),
{
    if ds.len() == 0 {
        0
    } else {
        value(ds.drop_last(), b) * b + ds.last()
    }
}

/// The candidate with index `k`: its digits written in the alphabet.
pub open spec fn candidate(k: nat, alphabet: Seq<u8>, n: nat) -> Seq<u8> {
    digits(k, alphabet.len(), n).map_values(|d: nat| alphabet[d as int])
}

/// `a` comes before `c` in lexicographic order; both have the same length.
pub open spec fn lex_less(a: Seq<nat>, c: Seq<nat>) -> bool
    decreases a.len(),
{
    if a.len() == 0 || c.len() != a.len() {
        false
    } else {
        lex_less(a.drop_last(), c.drop_last()) || (a.drop_last() == c.drop_last() && a.last()
            < c.last())
    }
}

/// Every digit is below `b`.
pub open spec fn digits_below(ds: Seq<nat>, b: nat) -> bool {
    forall|i: int| 0 <= i < ds.len() ==> #[trigger] ds[i] < b
}

proof fn lemma_pow_succ(b: nat, n: nat)
    ensures
        pow(b as int, n + 1) == b * pow(b as int, n),
        pow(b as int, 0) == 1,
{
    reveal(pow);
}

pub proof fn lemma_digits_shape(k: nat, b: nat, n: nat)
    requires
        b > 0,
    ensures
        digits(k, b, n).len() == n,
        digits_below(digits(k, b, n), b),
    decreases n,
{
    if n > 0 {
        lemma_digits_shape(k / b, b, (n - 1) as nat);
        let p = digits(k / b, b, (n - 1) as nat);
        assert(digits(k, b, n) == p.push(k % b));
    }
}

/// Reading the digits of an index in range gives the index back.
pub proof fn lemma_value_of_digits(k: nat, b: nat, n: nat)
    requires
        b > 0,
        k < pow(b as int, n),
    ensures
        value(digits(k, b, n), b) == k,
    decreases n,
{
    lemma_pow_succ(b, (n - 1) as nat);
    if n == 0 {
        lemma_pow_succ(b, 0);
    } else {
        lemma_fundamental_div_mod(k as int, b as int);
        assert(k / b < pow(b as int, (n - 1) as nat)) by (nonlinear_arith)
            requires
                k < b * pow(b as int, (n - 1) as nat),
                b > 0,
                k == b * (k / b) + k % b,
                0 <= k % b < b,
        ;
        lemma_value_of_digits(k / b, b, (n - 1) as nat);
        let p = digits(k / b, b, (n - 1) as nat);
        let d = digits(k, b, n);
        assert(d == p.push(k % b));
        assert(d.drop_last() == p);
        assert(d.last() == k % b);
        assert((k / b) * b + k % b == k) by (nonlinear_arith)
            requires
                k == b * (k / b) + k % b,
        ;
    }
}

/// A digit sequence's value is in range, and its digits are the sequence.
pub proof fn lemma_digits_of_value(ds: Seq<nat>, b: nat)
    requires
        b > 0,
        digits_below(ds, b),
    ensures
        value(ds, b) < pow(b as int, ds.len()),
        digits(value(ds, b), b, ds.len()) == ds,
    decreases ds.len(),
{
    lemma_pow_succ(b, 0);
    if ds.len() > 0 {
        let p = ds.drop_last();
        assert(digits_below(p, b)) by {
            assert forall|i: int| 0 <= i < p.len() implies #[trigger] p[i] < b by {
                assert(p[i] == ds[i]);
            }
        }
        lemma_digits_of_value(p, b);
        lemma_pow_succ(b, p.len());
        let v = value(p, b);
        let d = ds.last();
        assert(d < b);
        assert(v * b + d < b * pow(b as int, p.len())) by (nonlinear_arith)
            requires
                v < pow(b as int, p.len()),
                d < b,
        ;
        assert((v * b + d) / b == v && (v * b + d) % b == d) by (nonlinear_arith)
            requires
                d < b,
                b > 0,
        ;
        assert(p.push(d) == ds);
    }
}

/// A smaller index has lexicographically smaller digits.
pub proof fn lemma_digits_ordered(k1: nat, k2: nat, b: nat, n: nat)
    requires
        b > 0,
        k1 < k2 < pow(b as int, n),
    ensures
        lex_less(digits(k1, b, n), digits(k2, b, n)),
    decreases n,
{
    lemma_pow_succ(b, (n - 1) as nat);
    if n == 0 {
        lemma_pow_succ(b, 0);
    } else {
        lemma_fundamental_div_mod(k1 as int, b as int);
        lemma_fundamental_div_mod(k2 as int, b as int);
        let q1 = k1 / b;
        let q2 = k2 / b;
        assert(q1 <= q2) by (nonlinear_arith)
            requires
                k1 < k2,
                b > 0,
                q1 == k1 / b,
                q2 == k2 / b,
        ;
        assert(q2 < pow(b as int, (n - 1) as nat)) by (nonlinear_arith)
            requires
                k2 < b * pow(b as int, (n - 1) as nat),
                b > 0,
                k2 == b * q2 + k2 % b,
                0 <= k2 % b < b,
        ;
        lemma_digits_shape(q1, b, (n - 1) as nat);
        lemma_digits_shape(q2, b, (n - 1) as nat);
        let d1 = digits(k1, b, n);
        let d2 = digits(k2, b, n);
        assert(d1.drop_last() == digits(q1, b, (n - 1) as nat));
        assert(d2.drop_last() == digits(q2, b, (n - 1) as nat));
        if q1 < q2 {
            lemma_digits_ordered(q1, q2, b, (n - 1) as nat);
        } else {
            assert(b * q1 == b * q2);
            assert(k1 % b < k2 % b);
            assert(d1.last() == k1 % b);
            assert(d2.last() == k2 % b);
        }
    }
}

/// Enumeration law: over the first `b^n` indices, each string of length `n`
/// over the digits `0..b` appears exactly once, and in lexicographic order.
/// Every such string is the digits of one index in range; distinct indices
/// give distinct strings; a smaller index gives a smaller string.
pub proof fn lemma_enumeration(b: nat, n: nat)
    requires
        b > 0,
    ensures
        forall|ds: Seq<nat>|
            #![trigger value(ds, b)]
            ds.len() == n && digits_below(ds, b) ==> value(ds, b) < pow(b as int, n) && digits(
                value(ds, b),
                b,
                n,
            ) == ds,
        forall|k: nat|
            k < pow(b as int, n) ==> #[trigger] value(digits(k, b, n), b) == k,
        forall|k1: nat, k2: nat|
            k1 < k2 < pow(b as int, n) ==> #[trigger] lex_less(digits(k1, b, n), digits(k2, b, n)),
{
    assert forall|ds: Seq<nat>|
        #![trigger value(ds, b)]
        ds.len() == n && digits_below(ds, b) implies value(ds, b) < pow(b as int, n) && digits(
            value(ds, b),
            b,
            n,
        ) == ds by {
        lemma_digits_of_value(ds, b);
        assert(ds.len() == n);
    }
    assert forall|k: nat| k < pow(b as int, n) implies #[trigger] value(digits(k, b, n), b) == k by {
        lemma_value_of_digits(k, b, n);
    }
    assert forall|k1: nat, k2: nat| k1 < k2 < pow(b as int, n) implies #[trigger] lex_less(
        digits(k1, b, n),
        digits(k2, b, n),
    ) by {
        lemma_digits_ordered(k1, k2, b, n);
    }
}

proof fn lemma_candidate_step(k: nat, alphabet: Seq<u8>, n: nat)
    requires
        alphabet.len() > 0,
        n > 0,
    ensures
        candidate(k, alphabet, n) == candidate(k / alphabet.len(), alphabet, (n - 1) as nat).push(
            alphabet[(k % alphabet.len()) as int],
        ),
{
    let b = alphabet.len();
    let p = digits(k / b, b, (n - 1) as nat);
    assert(digits(k, b, n) == p.push(k % b));
    assert(candidate(k, alphabet, n) =~= candidate(k / b, alphabet, (n - 1) as nat).push(
        alphabet[(k % b) as int],
    ));
}

/// Writes the candidate with index `index` into `buf`, keeping its length.
pub fn index_to_bytes(index: u64, charset: &[u8], buf: &mut Vec<u8>)
    requires
        charset@.len() > 0,
    ensures
        final(buf)@ == candidate(index as nat, charset@, old(buf)@.len()),
        final(buf)@.len() == old(buf)@.len(),
{
    let n = buf.len();
    let b = charset.len() as u64;
    let mut idx: u64 = index;
    let mut i: usize = n;
    let ghost mut tail: Seq<u8> = Seq::empty();
    while i > 0
        invariant
            i <= n,
            n == buf@.len(),
            n == old(buf)@.len(),
            b == charset@.len(),
            b > 0,
            candidate(index as nat, charset@, n as nat) == candidate(idx as nat, charset@, i as nat) + tail,
            buf@.subrange(i as int, n as int) == tail,
        decreases i,
    {
        proof {
            lemma_candidate_step(idx as nat, charset@, i as nat);
        }
        let d = (idx % b) as usize;
        let c = charset[d];
        let ghost old_buf = buf@;
        buf.set(i - 1, c);
        proof {
            let prev = candidate(idx as nat / b as nat, charset@, (i - 1) as nat);
            assert(candidate(idx as nat, charset@, i as nat) == prev.push(c));
            assert(buf@.subrange(i - 1, n as int) =~= seq![c] + tail);
            assert(prev.push(c) + tail =~= prev + (seq![c] + tail));
            tail = seq![c] + tail;
        }
        idx = idx / b;
        i = i - 1;
    }
    proof {
        assert(candidate(idx as nat, charset@, 0) =~= Seq::<u8>::empty());
        assert(buf@.subrange(0, n as int) =~= buf@);
        assert(Seq::<u8>::empty() + tail =~= tail);
    }
}

/// Every byte of `buf` is in the alphabet.
pub open spec fn over_alphabet(buf: Seq<u8>, alphabet: Seq<u8>) -> bool {
    forall|i: int| 0 <= i < buf.len() ==> alphabet.contains(#[trigger] buf[i])
}

/// Where byte `c` stands in the alphabet.
pub open spec fn position_of(alphabet: Seq<u8>, c: u8) -> nat {
    (choose|i: int| 0 <= i < alphabet.len() && alphabet[i] == c) as nat
}

/// The positions of a candidate's bytes in the alphabet.
pub open spec fn positions(buf: Seq<u8>, alphabet: Seq<u8>) -> Seq<nat> {
    buf.map_values(|c: u8| position_of(alphabet, c))
}

/// The index of a candidate: its bytes read as digits in the alphabet.
pub open spec fn index_of(buf: Seq<u8>, alphabet: Seq<u8>) -> nat {
    value(positions(buf, alphabet), alphabet.len())
}

/// In a candidate over an alphabet without repeats, each byte's position
/// is its digit, so the index is the one it was written from.
pub proof fn lemma_index_of_candidate(k: nat, alphabet: Seq<u8>, n: nat)
    requires
        alphabet.len() > 0,
        alphabet.no_duplicates(),
        k < pow(alphabet.len() as int, n),
    ensures
        index_of(candidate(k, alphabet, n), alphabet) == k,
        over_alphabet(candidate(k, alphabet, n), alphabet),
        candidate(k, alphabet, n).len() == n,
{
    let b = alphabet.len();
    lemma_digits_shape(k, b, n);
    let ds = digits(k, b, n);
    let cand = candidate(k, alphabet, n);
    assert forall|i: int| 0 <= i < n implies #[trigger] positions(cand, alphabet)[i] == ds[i] by {
        assert(ds[i] < b);
        assert(alphabet[ds[i] as int] == cand[i]);
        let p = position_of(alphabet, cand[i]);
        assert(0 <= p < b && alphabet[p as int] == cand[i]);
    }
    assert(positions(cand, alphabet) =~= ds);
    lemma_value_of_digits(k, b, n);
    assert forall|i: int| 0 <= i < cand.len() implies alphabet.contains(#[trigger] cand[i]) by {
        assert(alphabet[ds[i] as int] == cand[i]);
    }
}

/// Moves the first `m` bytes of `buf` from candidate `k` to candidate `k + 1`.
fn advance_prefix(buf: &mut Vec<u8>, charset: &[u8], m: usize, Ghost(k): Ghost<nat>)
    requires
        charset@.len() > 0,
        charset@.no_duplicates(),
        m <= old(buf)@.len(),
        old(buf)@.subrange(0, m as int) == candidate(k, charset@, m as nat),
        k + 1 < pow(charset@.len() as int, m as nat),
    ensures
        final(buf)@.len() == old(buf)@.len(),
        final(buf)@.subrange(0, m as int) == candidate(k + 1, charset@, m as nat),
        final(buf)@.subrange(m as int, old(buf)@.len() as int) == old(buf)@.subrange(
            m as int,
            old(buf)@.len() as int,
        ),
    decreases m,
{
    let b = charset.len();
    let ghost bn = b as nat;
    proof {
        lemma_pow_succ(bn, 0);
        lemma_pow_succ(bn, (m - 1) as nat);
    }
    if m == 0 {
        assert(false);
        return;
    }
    proof {
        lemma_candidate_step(k, charset@, m as nat);
        lemma_candidate_step(k + 1, charset@, m as nat);
        lemma_digits_shape(k / bn, bn, (m - 1) as nat);
        lemma_digits_shape((k + 1) / bn, bn, (m - 1) as nat);
        let c = candidate(k, charset@, m as nat);
        assert(c[m - 1] == charset@[(k % bn) as int]);
        assert(c.drop_last() == candidate(k / bn, charset@, (m - 1) as nat));
        lemma_fundamental_div_mod(k as int, b as int);
        lemma_fundamental_div_mod((k + 1) as int, b as int);
        assert(buf@.subrange(0, m as int)[m - 1] == buf@[m - 1]);
    }
    let ghost d = k % bn;
    let cur = buf[m - 1];
    assert(cur == charset@[d as int]);
    let last = charset[b - 1];
    let ghost old_buf = buf@;
    if cur != last {
        let mut pos: usize = 0;
        while charset[pos] != cur
            invariant
                pos <= d,
                d < b,
                b == charset@.len(),
                charset@[d as int] == cur,
            decreases d - pos,
        {
            pos = pos + 1;
        }
        proof {
            assert(pos == d) by {
                if pos != d {
                    assert(charset@[pos as int] == charset@[d as int]);
                }
            }
            assert(d != b - 1);
            assert((k + 1) / bn == k / bn && (k + 1) % bn == d + 1) by (nonlinear_arith)
                requires
                    k == bn * (k / bn) + d,
                    d + 1 < bn,
                    (k + 1) == bn * ((k + 1) / bn) + (k + 1) % bn,
                    0 <= (k + 1) % bn < bn,
            ;
        }
        buf.set(m - 1, charset[pos + 1]);
        assert(buf@.subrange(0, m as int) =~= old_buf.subrange(0, m as int - 1).push(charset@[d as int + 1]));
        assert(old_buf.subrange(0, m as int - 1) =~= old_buf.subrange(0, m as int).drop_last());
        assert(buf@.subrange(m as int, buf@.len() as int) =~= old_buf.subrange(m as int, old_buf.len() as int));
    } else {
        proof {
            assert(d == b - 1) by {
                if d != b - 1 {
                    assert(charset@[(b - 1) as int] == charset@[d as int]);
                }
            }
            assert((k + 1) / bn == k / bn + 1 && (k + 1) % bn == 0) by (nonlinear_arith)
                requires
                    k == bn * (k / bn) + d,
                    d + 1 == bn,
                    (k + 1) == bn * ((k + 1) / bn) + (k + 1) % bn,
                    0 <= (k + 1) % bn < bn,
            ;
            assert(k / bn + 1 < pow(bn as int, (m - 1) as nat)) by (nonlinear_arith)
                requires
                    k + 1 == bn * (k / bn + 1),
                    k + 1 < bn * pow(bn as int, (m - 1) as nat),
                    bn > 0,
            ;
        }
        buf.set(m - 1, charset[0]);
        let ghost mid = buf@;
        assert(mid.subrange(0, m as int - 1) =~= old_buf.subrange(0, m as int).drop_last());
        advance_prefix(buf, charset, m - 1, Ghost(k / bn));
        assert(buf@[m - 1] == buf@.subrange(m as int - 1, buf@.len() as int)[0]);
        assert(mid[m - 1] == mid.subrange(m as int - 1, mid.len() as int)[0]);
        assert(buf@.subrange(0, m as int) =~= buf@.subrange(0, m as int - 1).push(charset@[0]));
        assert(buf@.subrange(m as int, buf@.len() as int) =~= old_buf.subrange(m as int, old_buf.len() as int)) by {
            assert(buf@.subrange(m as int - 1, buf@.len() as int) == mid.subrange(m as int - 1, mid.len() as int));
            assert forall|j: int| m <= j < buf@.len() implies buf@[j] == old_buf[j] by {
                assert(buf@[j] == buf@.subrange(m as int - 1, buf@.len() as int)[j - (m - 1)]);
                assert(mid[j] == mid.subrange(m as int - 1, mid.len() as int)[j - (m - 1)]);
            }
        }
    }
}

/// Advances `buf` to the next candidate, like an odometer: the last byte
/// moves to the next symbol, and a byte past the alphabet's last symbol
/// wraps to the first and carries left.
pub fn increment_password(buf: &mut Vec<u8>, charset: &[u8])
    requires
        charset@.len() > 0,
        charset@.no_duplicates(),
        over_alphabet(old(buf)@, charset@),
        index_of(old(buf)@, charset@) + 1 < pow(charset@.len() as int, old(buf)@.len()),
    ensures
        final(buf)@ == candidate(index_of(old(buf)@, charset@) + 1, charset@, old(buf)@.len()),
        final(buf)@.len() == old(buf)@.len(),
{
    let ghost b = charset@.len();
    let ghost ds = positions(old(buf)@, charset@);
    let ghost k = index_of(old(buf)@, charset@);
    proof {
        assert(digits_below(ds, b)) by {
            assert forall|i: int| 0 <= i < ds.len() implies #[trigger] ds[i] < b by {
                assert(charset@.contains(old(buf)@[i]));
            }
        }
        lemma_digits_of_value(ds, b);
        assert forall|i: int| 0 <= i < ds.len() implies #[trigger] charset@[ds[i] as int] == old(buf)@[i] by {
            assert(charset@.contains(old(buf)@[i]));
        }
        assert(candidate(k, charset@, ds.len()) =~= old(buf)@);
        assert(old(buf)@.subrange(0, old(buf)@.len() as int) =~= old(buf)@);
    }
    let n = buf.len();
    advance_prefix(buf, charset, n, Ghost(k));
    assert(buf@.subrange(0, n as int) =~= buf@);
}

} // verus!
