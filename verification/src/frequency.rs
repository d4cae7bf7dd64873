use vstd::prelude::*;

verus! {

/// Number of times `b` occurs in `s`.
pub open spec fn occurrences(s: Seq<u8>, b: u8) -> nat
    decreases s.len(),
{
    if s.len() == 0 {
        0
    } else {
        occurrences(s.drop_last(), b) + if s.last() == b {
            1nat
        } else {
            0nat
        }
    }
}

/// A byte occurs in `s` no more often than `s` is long.
pub proof fn lemma_occurrences_bounded(s: Seq<u8>, b: u8)
    ensures
        occurrences(s, b) <= s.len(),
    decreases s.len(),
{
    if s.len() > 0 {
        lemma_occurrences_bounded(s.drop_last(), b);
    }
}

/// A byte occurs a non-zero number of times exactly when it is in `s`.
pub proof fn lemma_occurrences_positive(s: Seq<u8>, b: u8)
    ensures
        occurrences(s, b) > 0 <==> s.contains(b),
    decreases s.len(),
{
    if s.len() > 0 {
        let t = s.drop_last();
        lemma_occurrences_positive(t, b);
        if t.contains(b) {
            let k = choose|k: int| 0 <= k < t.len() && t[k] == b;
            assert(s[k] == b);
        }
        if s.contains(b) {
            let k = choose|k: int| 0 <= k < s.len() && s[k] == b;
            if k < s.len() - 1 {
                assert(t[k] == b);
            }
        }
    }
}

/// The sum of the first `n` entries of a frequency table.
pub open spec fn prefix_total(f: Seq<u64>, n: nat) -> nat
    decreases n,
{
    if n == 0 {
        0
    } else {
        prefix_total(f, (n - 1) as nat) + f[n - 1] as nat
    }
}

/// The sum of all entries of a frequency table.
pub open spec fn table_total(f: Seq<u64>) -> nat {
    prefix_total(f, f.len())
}

/// The frequency table of `s`: entry `b` is how often byte `b` occurs.
pub open spec fn frequency_table(s: Seq<u8>) -> Seq<u64> {
    Seq::new(256, |i: int| occurrences(s, i as u8) as u64)
}

proof fn lemma_prefix_total_bump(f: Seq<u64>, g: Seq<u64>, x: int, n: nat)
    requires
        f.len() == g.len(),
        n <= f.len(),
        0 <= x < f.len(),
        g[x] == f[x] + 1,
        forall|k: int| 0 <= k < f.len() && k != x ==> g[k] == f[k],
    ensures
        prefix_total(g, n) == prefix_total(f, n) + if x < n {
            1nat
        } else {
            0nat
        },
    decreases n,
{
    if n > 0 {
        lemma_prefix_total_bump(f, g, x, (n - 1) as nat);
    }
}

/// The counts of all byte values add up to the length of the input.
pub proof fn lemma_frequency_total(s: Seq<u8>)
    requires
        s.len() <= u64::MAX,
    ensures
        table_total(frequency_table(s)) == s.len(),
    decreases s.len(),
{
    if s.len() == 0 {
        lemma_prefix_total_zero(frequency_table(s), 256);
    } else {
        let t = s.drop_last();
        let x = s.last();
        lemma_frequency_total(t);
        lemma_occurrences_bounded(t, x);
        assert forall|b: u8| occurrences(t, b) <= t.len() by {
            lemma_occurrences_bounded(t, b);
        }
        let f = frequency_table(t);
        let g = frequency_table(s);
        assert forall|k: int| 0 <= k < 256 && k != x as int implies g[k] == f[k] by {
            assert((k as u8) != x);
            lemma_occurrences_bounded(t, k as u8);
        }
        assert(g[x as int] == f[x as int] + 1);
        lemma_prefix_total_bump(f, g, x as int, 256);
    }
}

/// Partial sums grow with the number of entries summed.
pub proof fn lemma_prefix_total_monotone(f: Seq<u64>, n: nat, m: nat)
    requires
        n <= m,
    ensures
        prefix_total(f, n) <= prefix_total(f, m),
    decreases m - n,
{
    if n < m {
        lemma_prefix_total_monotone(f, n, (m - 1) as nat);
    }
}

proof fn lemma_prefix_total_zero(f: Seq<u64>, n: nat)
    requires
        n <= f.len(),
        forall|k: int| 0 <= k < n ==> f[k] == 0,
    ensures
        prefix_total(f, n) == 0,
    decreases n,
{
    if n > 0 {
        lemma_prefix_total_zero(f, (n - 1) as nat);
    }
}

/// Counts occurrences of every byte value (0–255) in `data`.
/// Index = byte value, value = how many times it appeared.
pub fn count_frequencies(data: &[u8]) -> (freq: [u64; 256])
    ensures
        forall|b: u8| #[trigger] freq@[b as int] == occurrences(data@, b),
        freq@ == frequency_table(data@),
        table_total(freq@) == data@.len(),
{
    let mut freq = [0u64; 256];
    let n = data.len();
    for i in 0..n
        invariant
            n == data@.len(),
            freq@.len() == 256,
            forall|b: u8| #[trigger] freq@[b as int] == occurrences(data@.take(i as int), b),
    {
        let byte = data[i];
        proof {
            assert(data@.take(i + 1).drop_last() =~= data@.take(i as int));
            lemma_occurrences_bounded(data@.take(i as int), byte);
        }
        freq[byte as usize] = freq[byte as usize] + 1;
    }
    assert(data@.take(n as int) =~= data@);
    proof {
        assert forall|k: int| 0 <= k < 256 implies freq@[k] == frequency_table(data@)[k] by {
            assert(freq@[(k as u8) as int] == occurrences(data@, k as u8));
        }
        assert(freq@ =~= frequency_table(data@));
        lemma_frequency_total(data@);
    }
    freq
}

} // verus!
