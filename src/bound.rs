use vstd::prelude::*;

use crate::keys::{agree_upto, key_lt, key_less, lt_at, starts_with, lemma_key_lt_asymmetric, lemma_key_lt_irreflexive, lemma_first_difference};

verus! {

/// `p` with its trailing 0xFF bytes removed.
pub open spec fn strip_max(p: Seq<u8>) -> Seq<u8>
    decreases p.len(),
{
    if p.len() > 0 && p.last() == 0xFFu8 {
        strip_max(p.drop_last())
    } else {
        p
    }
}

/// The exclusive upper end of the range of keys that start with `p`:
/// the shortest byte string above all of them. `None` when no such bound
/// exists (an empty prefix, or one made of 0xFF bytes only), in which case
/// the range is unbounded above.
pub open spec fn prefix_upper_spec(p: Seq<u8>) -> Option<Seq<u8>> {
    let q = strip_max(p);
    if q.len() == 0 {
        None
    } else {
        Some(q.drop_last().push((q.last() + 1) as u8))
    }
}

/// `k` lies in the half-open range `[lower, upper)`; `None` for `upper`
/// leaves the range open above.
pub open spec fn in_range(k: Seq<u8>, lower: Seq<u8>, upper: Option<Seq<u8>>) -> bool {
    &&& !key_lt(k, lower)
    &&& match upper {
        Some(u) => key_lt(k, u),
        None => true,
    }
}

proof fn lemma_strip_max(p: Seq<u8>)
    ensures
        strip_max(p).len() <= p.len(),
        strip_max(p) == p.subrange(0, strip_max(p).len() as int),
        forall|j: int| strip_max(p).len() <= j < p.len() ==> p[j] == 0xFFu8,
        strip_max(p).len() == 0 || strip_max(p).last() != 0xFFu8,
    decreases p.len(),
{
    if p.len() > 0 && p.last() == 0xFFu8 {
        lemma_strip_max(p.drop_last());
        assert forall|j: int| strip_max(p).len() <= j < p.len() implies p[j] == 0xFFu8 by {
            if j < p.len() - 1 {
                assert(p.drop_last()[j] == p[j]);
            }
        }
        assert(p.drop_last().subrange(0, strip_max(p).len() as int) =~= p.subrange(
            0,
            strip_max(p).len() as int,
        ));
    } else {
        assert(p == p.subrange(0, p.len() as int));
    }
}

/// A key lies in `[p, prefix_upper_spec(p))` exactly when it starts with `p`:
/// scanning that range finds every key with the prefix and no other.
pub proof fn lemma_prefix_range(p: Seq<u8>, k: Seq<u8>)
    ensures
        in_range(k, p, prefix_upper_spec(p)) == starts_with(k, p),
{
    lemma_strip_max(p);
    let q = strip_max(p);
    let n = q.len() as int;
    if starts_with(k, p) {
        assert(forall|j: int| 0 <= j < p.len() ==> k[j] == #[trigger] p[j]) by {
            assert forall|j: int| 0 <= j < p.len() implies k[j] == #[trigger] p[j] by {
                assert(k.subrange(0, p.len() as int)[j] == k[j]);
            }
        }
        if key_lt(k, p) {
            let i = choose|i: int| lt_at(k, p, i);
        }
        if n > 0 {
            let u = q.drop_last().push((q.last() + 1) as u8);
            assert(q[n - 1] == p[n - 1]);
            assert(lt_at(k, u, n - 1));
        }
    } else if !key_lt(k, p) {
        let d = lemma_first_difference(k, p, 0);
        if d == p.len() {
            assert(k.subrange(0, p.len() as int) =~= p);
        }
        assert(d < p.len());
        if d == k.len() {
            assert(lt_at(k, p, d));
        }
        if k[d] < p[d] {
            assert(lt_at(k, p, d));
        }
        assert(k[d] > p[d]);
        assert(n > d);
        let u = q.drop_last().push((q.last() + 1) as u8);
        assert(q[n - 1] == p[n - 1]);
        if d < n - 1 {
            assert(u[d] == p[d]);
            assert(lt_at(u, k, d));
            lemma_key_lt_asymmetric(u, k);
        } else if u[d] < k[d] {
            assert(lt_at(u, k, d));
            lemma_key_lt_asymmetric(u, k);
        } else if u.len() < k.len() {
            assert(lt_at(u, k, n));
            lemma_key_lt_asymmetric(u, k);
        } else {
            assert(agree_upto(u, k, n));
            assert(u =~= k);
            lemma_key_lt_irreflexive(u);
        }
    }
}

/// A key that starts with a prefix ending in 0xFF, and itself ends in 0xFF,
/// lies in the range that is scanned for that prefix: the carry over the
/// trailing 0xFF bytes keeps it below the upper bound.
pub proof fn lemma_max_byte_prefix_in_range(p: Seq<u8>, k: Seq<u8>)
    requires
        p.len() > 0,
        p.last() == 0xFFu8,
        starts_with(k, p),
        k.last() == 0xFFu8,
    ensures
        in_range(k, p, prefix_upper_spec(p)),
{
    lemma_prefix_range(p, k);
}

/// Computes the exclusive upper bound of the range of keys that start with
/// `prefix`, carrying over trailing 0xFF bytes.
pub fn prefix_upper(prefix: &[u8]) -> (r: Option<Vec<u8>>)
    ensures
        match r {
            Some(u) => prefix_upper_spec(prefix@) == Some(u@),
            None => prefix_upper_spec(prefix@).is_none(),
        },
{
    let mut n: usize = prefix.len();
    assert(prefix@.subrange(0, n as int) =~= prefix@);
    while n > 0 && prefix[n - 1] == 0xFFu8
        invariant
            n <= prefix.len(),
            strip_max(prefix@) == strip_max(prefix@.subrange(0, n as int)),
        decreases n,
    {
        proof {
            let s = prefix@.subrange(0, n as int);
            assert(s.drop_last() =~= prefix@.subrange(0, n - 1));
        }
        n = n - 1;
    }
    let ghost s = prefix@.subrange(0, n as int);
    if n == 0 {
        assert(strip_max(s) == s);
        return None;
    }
    assert(strip_max(s) == s);
    let mut u: Vec<u8> = Vec::new();
    let mut i: usize = 0;
    while i < n - 1
        invariant
            0 < n <= prefix.len(),
            i <= n - 1,
            u@ == prefix@.subrange(0, i as int),
        decreases n - 1 - i,
    {
        u.push(prefix[i]);
        proof {
            assert(u@ =~= prefix@.subrange(0, i + 1));
        }
        i = i + 1;
    }
    u.push(prefix[n - 1] + 1);
    assert(u@ =~= s.drop_last().push((s.last() + 1) as u8));
    Some(u)
}

/// Tells whether `k` lies in `[lower, upper)`.
pub fn key_in_range(k: &[u8], lower: &[u8], upper: Option<&[u8]>) -> (r: bool)
    ensures
        r == in_range(k@, lower@, match upper {
            Some(u) => Some(u@),
            None => None,
        }),
{
    if key_less(k, lower) {
        return false;
    }
    match upper {
        Some(u) => key_less(k, u),
        None => true,
    }
}

} // verus!
