use vstd::prelude::*;

verus! {

/// `a` and `b` agree on their first `i` bytes.
pub open spec fn agree_upto(a: Seq<u8>, b: Seq<u8>, i: int) -> bool {
    &&& 0 <= i <= a.len()
    &&& i <= b.len()
    &&& forall|j: int| 0 <= j < i ==> a[j] == b[j]
}

/// `i` is an index at which `a` is found to sort strictly before `b`.
pub open spec fn lt_at(a: Seq<u8>, b: Seq<u8>, i: int) -> bool {
    &&& agree_upto(a, b, i)
    &&& i < b.len()
    &&& (i == a.len() || a[i] < b[i])
}

/// Lexicographic order on byte strings: `a` sorts strictly before `b`.
pub open spec fn key_lt(a: Seq<u8>, b: Seq<u8>) -> bool {
    exists|i: int| #[trigger] lt_at(a, b, i)
}

/// `p` is a prefix of `k`.
pub open spec fn starts_with(k: Seq<u8>, p: Seq<u8>) -> bool {
    p.len() <= k.len() && k.subrange(0, p.len() as int) == p
}

/// No byte string sorts before itself.
pub proof fn lemma_key_lt_irreflexive(a: Seq<u8>)
    ensures
        !key_lt(a, a),
{
}

/// Two byte strings never sort strictly before each other.
pub proof fn lemma_key_lt_asymmetric(a: Seq<u8>, b: Seq<u8>)
    ensures
        !(key_lt(a, b) && key_lt(b, a)),
{
    if key_lt(a, b) && key_lt(b, a) {
        let i = choose|i: int| lt_at(a, b, i);
        let j = choose|j: int| lt_at(b, a, j);
        if i < j {
            assert(a[i] == b[i]);
        } else if j < i {
            assert(a[j] == b[j]);
        }
    }
}

/// The order is transitive.
pub proof fn lemma_key_lt_transitive(a: Seq<u8>, b: Seq<u8>, c: Seq<u8>)
    requires
        key_lt(a, b),
        key_lt(b, c),
    ensures
        key_lt(a, c),
{
    let i = choose|i: int| lt_at(a, b, i);
    let j = choose|j: int| lt_at(b, c, j);
    if i <= j {
        assert(lt_at(a, c, i));
    } else {
        assert(a[j] == b[j]);
        assert(lt_at(a, c, j));
    }
}

/// Where `a` and `b` agree up to `i`, there is a first index at or after `i`
/// where one of them ends or they differ.
pub proof fn lemma_first_difference(a: Seq<u8>, b: Seq<u8>, i: int) -> (d: int)
    requires
        agree_upto(a, b, i),
    ensures
        i <= d,
        agree_upto(a, b, d),
        d == a.len() || d == b.len() || a[d] != b[d],
    decreases a.len() - i,
{
    if i == a.len() || i == b.len() || a[i] != b[i] {
        i
    } else {
        lemma_first_difference(a, b, i + 1)
    }
}

/// Any two byte strings are equal or one sorts before the other.
pub proof fn lemma_key_lt_total(a: Seq<u8>, b: Seq<u8>)
    ensures
        a == b || key_lt(a, b) || key_lt(b, a),
{
    let d = lemma_first_difference(a, b, 0);
    if d == a.len() && d == b.len() {
        assert(a =~= b);
    } else if d == a.len() {
        assert(lt_at(a, b, d));
    } else if d == b.len() {
        assert(lt_at(b, a, d));
    } else if a[d] < b[d] {
        assert(lt_at(a, b, d));
    } else {
        assert(lt_at(b, a, d));
    }
}

/// Compares two keys in lexicographic byte order.
pub fn key_less(a: &[u8], b: &[u8]) -> (r: bool)
    ensures
        r == key_lt(a@, b@),
{
    let mut i: usize = 0;
    while i < a.len() && i < b.len()
        invariant
            agree_upto(a@, b@, i as int),
        decreases a.len() - i,
    {
        if a[i] != b[i] {
            let r = a[i] < b[i];
            proof {
                if r {
                    assert(lt_at(a@, b@, i as int));
                } else {
                    assert(lt_at(b@, a@, i as int));
                    lemma_key_lt_asymmetric(a@, b@);
                }
            }
            return r;
        }
        i = i + 1;
    }
    let r = i < b.len();
    proof {
        if r {
            assert(lt_at(a@, b@, i as int));
        } else if key_lt(a@, b@) {
            let j = choose|j: int| lt_at(a@, b@, j);
            assert(a@[j] == b@[j]);
        }
    }
    r
}

} // verus!
