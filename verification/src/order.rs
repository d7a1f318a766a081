//! Helpers shared by both tree engines: strict ordering of key sequences,
//! and powers of two for the logarithmic height bounds.

use vstd::prelude::*;

verus! {

/// A sequence is strictly ascending: every element is smaller than all later ones.
pub open spec fn sorted_strict(s: Seq<u32>) -> bool {
    forall|i: int, j: int| 0 <= i < j < s.len() ==> s[i] < s[j]
}

/// Concatenating an ascending run below `k`, then `k`, then an ascending run
/// above `k` yields an ascending sequence.
pub proof fn lemma_sorted_concat(a: Seq<u32>, k: u32, b: Seq<u32>)
    requires
        sorted_strict(a),
        sorted_strict(b),
        forall|i: int| 0 <= i < a.len() ==> #[trigger] a[i] < k,
        forall|i: int| 0 <= i < b.len() ==> #[trigger] b[i] > k,
    ensures
        sorted_strict(a + seq![k] + b),
{
    let s = a + seq![k] + b;
    assert forall|i: int, j: int| 0 <= i < j < s.len() implies s[i] < s[j] by {
        if j < a.len() {
            assert(s[i] == a[i] && s[j] == a[j]);
        } else if j == a.len() {
            assert(s[i] == a[i] && s[j] == k);
        } else if i < a.len() {
            assert(s[i] == a[i] && s[j] == b[j - a.len() - 1]);
        } else if i == a.len() {
            assert(s[i] == k && s[j] == b[j - a.len() - 1]);
        } else {
            assert(s[i] == b[i - a.len() - 1] && s[j] == b[j - a.len() - 1]);
        }
    }
}

/// Two strictly ascending sequences that hold the same values are the same
/// sequence: a sorted listing is determined by membership alone.
pub proof fn lemma_sorted_unique(a: Seq<u32>, b: Seq<u32>)
    requires
        sorted_strict(a),
        sorted_strict(b),
        forall|k: u32| a.contains(k) <==> b.contains(k),
    ensures
        a == b,
    decreases a.len(),
{
    if a.len() == 0 {
        if b.len() > 0 {
            assert(b.contains(b[0]));
            assert(a.contains(b[0]));
        }
        assert(a =~= b);
    } else {
        assert(a.contains(a[0]));
        assert(b.contains(b[0]));
        assert(b.contains(a[0]));
        assert(a.contains(b[0]));
        let i = choose|i: int| 0 <= i < b.len() && b[i] == a[0];
        let j = choose|j: int| 0 <= j < a.len() && a[j] == b[0];
        // each head is the least element of its sequence, and the two
        // sequences hold the same elements, so the heads agree
        assert(b[0] <= b[i] && a[0] <= a[j]);
        assert(a[0] == b[0]);
        let at = a.drop_first();
        let bt = b.drop_first();
        assert forall|k: u32| at.contains(k) <==> bt.contains(k) by {
            if at.contains(k) {
                let m = choose|m: int| 0 <= m < at.len() && at[m] == k;
                assert(a[m + 1] == k);
                assert(a.contains(k));
                assert(k > a[0]);
                let n = choose|n: int| 0 <= n < b.len() && b[n] == k;
                assert(n != 0);
                assert(bt[n - 1] == k);
                assert(bt.contains(k));
            }
            if bt.contains(k) {
                let m = choose|m: int| 0 <= m < bt.len() && bt[m] == k;
                assert(b[m + 1] == k);
                assert(b.contains(k));
                assert(k > b[0]);
                let n = choose|n: int| 0 <= n < a.len() && a[n] == k;
                assert(n != 0);
                assert(at[n - 1] == k);
                assert(at.contains(k));
            }
        }
        lemma_sorted_unique(at, bt);
        assert forall|m: int| 0 <= m < a.len() implies a[m] == b[m] by {
            if m > 0 {
                assert(at[m - 1] == a[m] && bt[m - 1] == b[m]);
            }
        }
        assert(a =~= b);
    }
}


/// Two to the power `n`.
pub open spec fn pow2(n: nat) -> nat
    decreases n,
{
    if n == 0 {
        1
    } else {
        2 * pow2((n - 1) as nat)
    }
}

/// Powers of two grow with the exponent.
pub proof fn lemma_pow2_mono(a: nat, b: nat)
    requires
        a <= b,
    ensures
        pow2(a) <= pow2(b),
    decreases b,
{
    if a < b {
        lemma_pow2_mono(a, (b - 1) as nat);
        assert(pow2(b) == 2 * pow2((b - 1) as nat));
    }
}

} // verus!
