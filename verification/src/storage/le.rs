use vstd::prelude::*;

verus! {

/// `256` to the power `n`.
pub open spec fn pow256(n: nat) -> nat
    decreases n,
{
    if n == 0 {
        1
    } else {
        256 * pow256((n - 1) as nat)
    }
}

/// The number whose little-endian base-256 digits are `s`.
pub open spec fn le_value(s: Seq<u8>) -> nat
    decreases s.len(),
{
    if s.len() == 0 {
        0
    } else {
        s[0] as nat + 256 * le_value(s.drop_first())
    }
}

/// The `n` lowest little-endian base-256 digits of `v`.
pub open spec fn le_bytes(v: nat, n: nat) -> Seq<u8>
    decreases n,
{
    if n == 0 {
        Seq::empty()
    } else {
        seq![(v % 256) as u8] + le_bytes(v / 256, (n - 1) as nat)
    }
}

pub proof fn lemma_pow256_values()
    ensures
        pow256(1) == 256,
        pow256(2) == 0x1_0000,
        pow256(4) == 0x1_0000_0000,
        pow256(8) == 0x1_0000_0000_0000_0000,
{
    reveal_with_fuel(pow256, 9);
}

pub proof fn lemma_pow256_monotone(a: nat, b: nat)
    requires
        a <= b,
    ensures
        pow256(a) <= pow256(b),
        pow256(a) >= 1,
    decreases b,
{
    if b > a {
        lemma_pow256_monotone(a, (b - 1) as nat);
    } else if a > 0 {
        lemma_pow256_monotone((a - 1) as nat, (a - 1) as nat);
    }
}

pub proof fn lemma_le_bytes_len(v: nat, n: nat)
    ensures
        le_bytes(v, n).len() == n,
    decreases n,
{
    if n > 0 {
        lemma_le_bytes_len(v / 256, (n - 1) as nat);
    }
}

pub proof fn lemma_le_value_bound(s: Seq<u8>)
    ensures
        le_value(s) < pow256(s.len()),
    decreases s.len(),
{
    if s.len() > 0 {
        lemma_le_value_bound(s.drop_first());
    }
}

/// Reading back the digits of a number that fits gives the number.
pub proof fn lemma_le_roundtrip(v: nat, n: nat)
    requires
        v < pow256(n),
    ensures
        le_value(le_bytes(v, n)) == v,
        le_bytes(v, n).len() == n,
    decreases n,
{
    lemma_le_bytes_len(v, n);
    if n > 0 {
        assert(v / 256 < pow256((n - 1) as nat));
        lemma_le_roundtrip(v / 256, (n - 1) as nat);
        assert(le_bytes(v, n).drop_first() == le_bytes(v / 256, (n - 1) as nat));
    }
}

/// Writing the value of some digits gives back those digits.
pub proof fn lemma_le_bytes_of_value(s: Seq<u8>)
    ensures
        le_bytes(le_value(s), s.len()) == s,
    decreases s.len(),
{
    if s.len() > 0 {
        lemma_le_bytes_of_value(s.drop_first());
        let v = le_value(s);
        assert(v % 256 == s[0] as nat);
        assert(v / 256 == le_value(s.drop_first()));
        assert(le_bytes(v, s.len()) =~= s);
    }
}

/// Appends the `n` little-endian digits of `value`.
pub fn push_le(out: &mut Vec<u8>, value: u64, n: usize)
    requires
        n <= 8,
    ensures
        final(out)@ == old(out)@ + le_bytes(value as nat, n as nat),
{
    let ghost goal = out@ + le_bytes(value as nat, n as nat);
    let mut v: u64 = value;
    let mut k: usize = 0;
    while k < n
        invariant
            k <= n <= 8,
            out@ + le_bytes(v as nat, (n - k) as nat) == goal,
        decreases n - k,
    {
        let ghost rest = le_bytes(v as nat / 256, (n - k - 1) as nat);
        assert(le_bytes(v as nat, (n - k) as nat) == seq![(v as nat % 256) as u8] + rest);
        assert(out@.push((v % 256) as u8) + rest == out@ + (seq![(v as nat % 256) as u8] + rest));
        out.push((v % 256) as u8);
        v = v / 256;
        k += 1;
    }
    assert(out@ + le_bytes(v as nat, 0) == out@);
}

/// The value of the `n` little-endian digits at `at`.
pub fn read_le(b: &[u8], at: usize, n: usize) -> (r: u64)
    requires
        n <= 8,
        at + n <= b@.len(),
    ensures
        r as nat == le_value(b@.subrange(at as int, at + n)),
{
    let _len = b.len();
    let mut v: u64 = 0;
    let mut k: usize = n;
    proof {
        lemma_pow256_values();
    }
    while k > 0
        invariant
            k <= n <= 8,
            at + n <= b@.len(),
            v as nat == le_value(b@.subrange(at + k, at + n)),
            _len == b@.len(),
            pow256(8) == 0x1_0000_0000_0000_0000,
        decreases k,
    {
        let ghost tail = b@.subrange(at + k, at + n);
        proof {
            lemma_le_value_bound(tail);
            lemma_pow256_monotone((n - k) as nat, 7);
            reveal_with_fuel(pow256, 9);
        }
        let byte = b[at + k - 1];
        v = v * 256 + byte as u64;
        k -= 1;
        assert(b@.subrange(at + k, at + n).drop_first() == tail);
    }
    v
}

} // verus!
