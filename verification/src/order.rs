//! Lexicographic order on text and a stable sort by text keys.
use vstd::prelude::*;

verus! {

/// `a` comes before `b` or equals it, comparing characters by code point
/// from the left (the order of `String`'s `Ord`, which compares UTF-8 bytes).
pub open spec fn text_le(a: Seq<char>, b: Seq<char>) -> bool
    decreases a.len(),
{
    if a.len() == 0 {
        true
    } else if b.len() == 0 {
        false
    } else if a[0] < b[0] {
        true
    } else if a[0] == b[0] {
        text_le(a.drop_first(), b.drop_first())
    } else {
        false
    }
}

/// Every text is at most itself.
pub proof fn lemma_text_le_reflexive(a: Seq<char>)
    ensures
        text_le(a, a),
    decreases a.len(),
{
    if a.len() > 0 {
        lemma_text_le_reflexive(a.drop_first());
    }
}

/// Any two texts are ordered one way or the other.
pub proof fn lemma_text_le_total(a: Seq<char>, b: Seq<char>)
    ensures
        text_le(a, b) || text_le(b, a),
    decreases a.len(),
{
    if a.len() > 0 && b.len() > 0 && a[0] == b[0] {
        lemma_text_le_total(a.drop_first(), b.drop_first());
    }
}

/// The order is transitive.
pub proof fn lemma_text_le_transitive(a: Seq<char>, b: Seq<char>, c: Seq<char>)
    requires
        text_le(a, b),
        text_le(b, c),
    ensures
        text_le(a, c),
    decreases a.len(),
{
    if a.len() > 0 && b.len() > 0 && c.len() > 0 && a[0] == b[0] && b[0] == c[0] {
        lemma_text_le_transitive(a.drop_first(), b.drop_first(), c.drop_first());
    }
}

/// Whether `a` is at most `b` in the order above.
pub fn text_le_exec(a: &Vec<char>, b: &Vec<char>) -> (r: bool)
    ensures
        r == text_le(a@, b@),
{
    let mut k: usize = 0;
    assert(a@.skip(0) =~= a@);
    assert(b@.skip(0) =~= b@);
    while k < a.len() && k < b.len() && a[k] == b[k]
        invariant
            0 <= k <= a@.len(),
            k <= b@.len(),
            text_le(a@, b@) == text_le(a@.skip(k as int), b@.skip(k as int)),
        decreases a.len() - k,
    {
        assert(a@.skip(k as int).drop_first() =~= a@.skip(k + 1));
        assert(b@.skip(k as int).drop_first() =~= b@.skip(k + 1));
        k = k + 1;
    }
    if k == a.len() {
        assert(a@.skip(k as int).len() == 0);
        return true;
    }
    if k == b.len() {
        return false;
    }
    assert(a@.skip(k as int)[0] == a@[k as int]);
    assert(b@.skip(k as int)[0] == b@[k as int]);
    a[k] < b[k]
}

/// `perm` lists the first `n` positions of `keys` in key order, positions
/// with equal keys in ascending position order.
pub open spec fn stable_order(keys: Seq<Seq<char>>, perm: Seq<usize>, n: int) -> bool {
    &&& perm.len() == n
    &&& forall|i: int| 0 <= i < n ==> (#[trigger] perm[i]) < n
    &&& forall|i: int, j: int| 0 <= i < j < n ==> #[trigger] perm[i] != #[trigger] perm[j]
    &&& forall|i: int, j: int|
        0 <= i < j < n ==> text_le(keys[#[trigger] perm[i] as int], keys[#[trigger] perm[j] as int])
    &&& forall|i: int, j: int|
        0 <= i < j < n && keys[#[trigger] perm[i] as int] == keys[#[trigger] perm[j] as int]
            ==> perm[i] < perm[j]
}

/// The texts of a list of character vectors.
pub open spec fn texts(v: Seq<Vec<char>>) -> Seq<Seq<char>> {
    v.map_values(|k: Vec<char>| k@)
}

proof fn lemma_insert_ordered(keys: Seq<Seq<char>>, perm: Seq<usize>, n: int, p: int)
    requires
        0 <= n < keys.len(),
        n < usize::MAX,
        stable_order(keys, perm, n),
        0 <= p <= n,
        forall|q: int| p <= q < n ==> !text_le(keys[#[trigger] perm[q] as int], keys[n]),
        p > 0 ==> text_le(keys[perm[p - 1] as int], keys[n]),
    ensures
        stable_order(keys, perm.insert(p, n as usize), n + 1),
{
    let np = perm.insert(p, n as usize);
    assert forall|i: int| 0 <= i < n + 1 implies (#[trigger] np[i]) < n + 1 by {
        if i < p {
            assert(np[i] == perm[i]);
        } else if i > p {
            assert(np[i] == perm[i - 1]);
        }
    }
    assert forall|i: int, j: int| 0 <= i < j < n + 1 implies #[trigger] np[i] != #[trigger] np[j] by {
        if i < p && j < p {
            assert(perm[i] != perm[j]);
        } else if i < p && j == p {
            assert(perm[i] < n);
        } else if i < p && j > p {
            assert(perm[i] != perm[j - 1]);
        } else if i == p {
            assert(perm[j - 1] < n);
        } else {
            assert(perm[i - 1] != perm[j - 1]);
        }
    }
    assert forall|i: int, j: int| 0 <= i < j < n + 1 implies text_le(
        keys[#[trigger] np[i] as int],
        keys[#[trigger] np[j] as int],
    ) by {
        if i < p && j < p {
            assert(text_le(keys[perm[i] as int], keys[perm[j] as int]));
        } else if i < p && j == p {
            if i < p - 1 {
                assert(text_le(keys[perm[i] as int], keys[perm[p - 1] as int]));
                lemma_text_le_transitive(keys[perm[i] as int], keys[perm[p - 1] as int], keys[n]);
            }
        } else if i < p && j > p {
            assert(text_le(keys[perm[i] as int], keys[perm[j - 1] as int]));
        } else if i == p {
            assert(!text_le(keys[perm[j - 1] as int], keys[n]));
            lemma_text_le_total(keys[perm[j - 1] as int], keys[n]);
        } else {
            assert(text_le(keys[perm[i - 1] as int], keys[perm[j - 1] as int]));
        }
    }
    assert forall|i: int, j: int|
        0 <= i < j < n + 1 && keys[#[trigger] np[i] as int] == keys[#[trigger] np[j] as int]
            implies np[i] < np[j] by {
        if i < p && j < p {
            assert(keys[perm[i] as int] == keys[perm[j] as int] ==> perm[i] < perm[j]);
        } else if i < p && j == p {
            assert(perm[i] < n);
        } else if i < p && j > p {
            assert(keys[perm[i] as int] == keys[perm[j - 1] as int] ==> perm[i] < perm[j - 1]);
        } else if i == p {
            assert(!text_le(keys[perm[j - 1] as int], keys[n]));
            lemma_text_le_reflexive(keys[n]);
        } else {
            assert(keys[perm[i - 1] as int] == keys[perm[j - 1] as int] ==> perm[i - 1] < perm[j
                - 1]);
        }
    }
}

/// The positions of `keys` in stable key order (an insertion sort).
pub fn stable_sort_positions(keys: &Vec<Vec<char>>) -> (perm: Vec<usize>)
    ensures
        stable_order(texts(keys@), perm@, keys@.len() as int),
{
    let ghost k = texts(keys@);
    let n = keys.len();
    let mut perm: Vec<usize> = Vec::new();
    let mut i: usize = 0;
    while i < n
        invariant
            0 <= i <= n == keys@.len() == k.len(),
            k == texts(keys@),
            stable_order(k, perm@, i as int),
        decreases n - i,
    {
        let mut p: usize = i;
        while p > 0 && !text_le_exec(&keys[perm[p - 1]], &keys[i])
            invariant
                0 <= p <= i < n == keys@.len() == k.len(),
                k == texts(keys@),
                stable_order(k, perm@, i as int),
                forall|q: int| p <= q < i ==> !text_le(k[#[trigger] perm@[q] as int], k[i as int]),
            decreases p,
        {
            p = p - 1;
        }
        proof {
            lemma_insert_ordered(k, perm@, i as int, p as int);
        }
        perm.insert(p, i);
        i = i + 1;
    }
    perm
}

/// `a` is a prefix of `b`, or the two first differ at a position where `a`'s
/// character is the smaller.
pub open spec fn prefix_or_first_smaller(a: Seq<char>, b: Seq<char>) -> bool {
    ||| a.len() <= b.len() && a == b.take(a.len() as int)
    ||| exists|k: int| 0 <= k < a.len() && k < b.len() && a.take(k) == b.take(k) && #[trigger] a[k] < b[k]
}

/// The order on text is the lexicographic order by code point: `a` comes
/// at or before `b` exactly when `a` is a prefix of `b` or, at the first
/// position where they differ, `a`'s character is the smaller. So two texts
/// that agree on a first stretch are told apart by what follows it.
pub proof fn law_text_le_is_lexicographic(a: Seq<char>, b: Seq<char>)
    ensures
        text_le(a, b) <==> prefix_or_first_smaller(a, b),
    decreases a.len(),
{
    if a.len() == 0 {
        assert(a =~= b.take(0));
    } else if b.len() == 0 {
        assert(!prefix_or_first_smaller(a, b));
    } else if a[0] < b[0] {
        assert(a.take(0) =~= b.take(0));
        assert(a[0] < b[0]);
    } else if a[0] == b[0] {
        let a1 = a.drop_first();
        let b1 = b.drop_first();
        law_text_le_is_lexicographic(a1, b1);
        if prefix_or_first_smaller(a1, b1) {
            if a1.len() <= b1.len() && a1 == b1.take(a1.len() as int) {
                assert(a =~= b.take(a.len() as int)) by {
                    assert forall|m: int| 0 <= m < a.len() implies #[trigger] a[m] == b.take(
                        a.len() as int,
                    )[m] by {
                        if m > 0 {
                            assert(a[m] == a1[m - 1]);
                            assert(a1[m - 1] == b1.take(a1.len() as int)[m - 1]);
                        }
                    }
                }
            } else {
                let k = choose|k: int|
                    0 <= k < a1.len() && k < b1.len() && a1.take(k) == b1.take(k) && #[trigger] a1[k] < b1[k];
                assert(a.take(k + 1) =~= b.take(k + 1)) by {
                    assert forall|m: int| 0 <= m < k + 1 implies #[trigger] a.take(k + 1)[m] == b.take(k + 1)[m] by {
                        if m > 0 {
                            assert(a1.take(k)[m - 1] == b1.take(k)[m - 1]);
                        }
                    }
                }
                assert(a[k + 1] == a1[k]);
                assert(a[k + 1] < b[k + 1]);
            }
        }
        if prefix_or_first_smaller(a, b) {
            if a.len() <= b.len() && a == b.take(a.len() as int) {
                assert(a1 =~= b1.take(a1.len() as int)) by {
                    assert forall|m: int| 0 <= m < a1.len() implies #[trigger] a1[m] == b1.take(a1.len() as int)[m] by {
                        assert(a[m + 1] == b.take(a.len() as int)[m + 1]);
                    }
                }
            } else {
                let k = choose|k: int|
                    0 <= k < a.len() && k < b.len() && a.take(k) == b.take(k) && #[trigger] a[k] < b[k];
                assert(k != 0);
                assert(a1.take(k - 1) =~= b1.take(k - 1)) by {
                    assert forall|m: int| 0 <= m < k - 1 implies #[trigger] a1.take(k - 1)[m] == b1.take(k - 1)[m] by {
                        assert(a.take(k)[m + 1] == b.take(k)[m + 1]);
                    }
                }
                assert(a1[k - 1] == a[k]);
                assert(a1[k - 1] < b1[k - 1]);
            }
        }
    } else {
        if prefix_or_first_smaller(a, b) {
            if a.len() <= b.len() && a == b.take(a.len() as int) {
                assert(a[0] == b.take(a.len() as int)[0]);
            } else {
                let k = choose|k: int|
                    0 <= k < a.len() && k < b.len() && a.take(k) == b.take(k) && #[trigger] a[k] < b[k];
                if k > 0 {
                    assert(a.take(k)[0] == b.take(k)[0]);
                }
            }
        }
    }
}

/// Two texts each at or before the other are the same text.
pub proof fn law_text_le_antisymmetric(a: Seq<char>, b: Seq<char>)
    requires
        text_le(a, b),
        text_le(b, a),
    ensures
        a == b,
    decreases a.len(),
{
    if a.len() == 0 {
        assert(b.len() == 0);
        assert(a =~= b);
    } else {
        assert(b.len() > 0);
        assert(a[0] == b[0]);
        law_text_le_antisymmetric(a.drop_first(), b.drop_first());
        assert(a =~= seq![a[0]] + a.drop_first());
        assert(b =~= seq![b[0]] + b.drop_first());
    }
}

} // verus!
