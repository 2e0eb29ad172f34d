//! Stable sorting under a strict weak order, and the lexicographic order of
//! character sequences.
use vstd::prelude::*;

verus! {

/// `less` is a strict weak order: irreflexive, transitive, and with
/// transitive incomparability.
pub open spec fn strict_weak<T>(less: spec_fn(T, T) -> bool) -> bool {
    &&& forall|a: T| !#[trigger] less(a, a)
    &&& forall|a: T, b: T, c: T| #[trigger] less(a, b) && #[trigger] less(b, c) ==> less(a, c)
    &&& forall|a: T, b: T, c: T|
        !#[trigger] less(a, b) && !#[trigger] less(b, c) ==> !less(a, c)
}

/// No element of `s` is less than an element before it.
pub open spec fn sorted_by<T>(s: Seq<T>, less: spec_fn(T, T) -> bool) -> bool {
    forall|i: int, j: int| 0 <= i < j < s.len() ==> !less(#[trigger] s[j], #[trigger] s[i])
}

/// Neither of `a`, `b` is less than the other.
pub open spec fn equivalent<T>(a: T, b: T, less: spec_fn(T, T) -> bool) -> bool {
    !less(a, b) && !less(b, a)
}

/// `perm` lists each index below `n` exactly once.
pub open spec fn is_permutation(perm: Seq<int>, n: nat) -> bool {
    &&& perm.len() == n
    &&& forall|i: int| 0 <= i < n ==> 0 <= #[trigger] perm[i] < n
    &&& forall|i: int, j: int| 0 <= i < j < n ==> #[trigger] perm[i] != #[trigger] perm[j]
}

/// `out` holds the elements of `inp`, reordered by `perm`, sorted by `less`,
/// with equivalent elements in their original relative order.
pub open spec fn stable_order_by<T>(out: Seq<T>, inp: Seq<T>, perm: Seq<int>, less: spec_fn(T, T) -> bool) -> bool {
    &&& out.len() == inp.len()
    &&& is_permutation(perm, inp.len())
    &&& forall|i: int| 0 <= i < out.len() ==> #[trigger] out[i] == inp[perm[i]]
    &&& sorted_by(out, less)
    &&& forall|i: int, j: int|
        0 <= i < j < out.len() && equivalent(#[trigger] out[i], #[trigger] out[j], less) ==> perm[i]
            < perm[j]
}

/// A stable sort of `inp` by `less`.
pub open spec fn is_stable_sort<T>(out: Seq<T>, inp: Seq<T>, less: spec_fn(T, T) -> bool) -> bool {
    exists|perm: Seq<int>| stable_order_by(out, inp, perm, less)
}

/// Stable insertion sort; `lt` computes `less`.
pub fn stable_sort<T, L: Fn(&T, &T) -> bool>(v: Vec<T>, lt: L, Ghost(less): Ghost<spec_fn(T, T) -> bool>) -> (r: Vec<T>)
    requires
        strict_weak(less),
        forall|a: &T, b: &T| #[trigger] call_requires(lt, (a, b)),
        forall|a: &T, b: &T, x: bool| #[trigger] call_ensures(lt, (a, b), x) ==> x == less(*a, *b),
    ensures
        is_stable_sort(r@, v@, less),
{
    let ghost inp = v@;
    let mut input = v;
    let mut out: Vec<T> = Vec::new();
    let ghost mut perm: Seq<int> = Seq::empty();
    let mut n: usize = 0;
    let total = input.len();
    while input.len() > 0
        invariant
            strict_weak(less),
            forall|a: &T, b: &T| #[trigger] call_requires(lt, (a, b)),
            forall|a: &T, b: &T, x: bool| #[trigger] call_ensures(lt, (a, b), x) ==> x == less(*a, *b),
            total == inp.len(),
            n + input.len() == total,
            input@ == inp.skip(n as int),
            out.len() == n,
            perm.len() == n,
            forall|i: int| 0 <= i < n ==> 0 <= #[trigger] perm[i] < n,
            forall|i: int, j: int| 0 <= i < j < n ==> #[trigger] perm[i] != #[trigger] perm[j],
            forall|i: int| 0 <= i < n ==> #[trigger] out@[i] == inp[perm[i]],
            sorted_by(out@, less),
            forall|i: int, j: int|
                0 <= i < j < n && equivalent(#[trigger] out@[i], #[trigger] out@[j], less) ==> perm[i]
                    < perm[j],
        decreases input.len(),
    {
        let x = input.remove(0);
        assert(x == inp[n as int]);
        assert(input@ =~= inp.skip(n + 1));
        // first position whose element x is less than
        let mut k: usize = 0;
        while k < out.len() && !lt(&x, &out[k])
            invariant
                k <= out.len(),
                forall|a: &T, b: &T| #[trigger] call_requires(lt, (a, b)),
                forall|a: &T, b: &T, x: bool| #[trigger] call_ensures(lt, (a, b), x) ==> x == less(*a, *b),
                forall|i: int| 0 <= i < k ==> !less(x, #[trigger] out@[i]),
            decreases out.len() - k,
        {
            k += 1;
        }
        proof {
            if k < out.len() {
                assert(less(x, out@[k as int]));
                assert forall|j: int| k <= j < out.len() implies less(x, #[trigger] out@[j]) by {
                    if j > k {
                        assert(!less(out@[j], out@[k as int]));
                    }
                }
            }
        }
        let ghost old_out = out@;
        let ghost old_perm = perm;
        out.insert(k, x);
        proof {
            perm = old_perm.insert(k as int, n as int);
            assert(out@ == old_out.insert(k as int, x));
            assert forall|i: int| 0 <= i < n + 1 implies #[trigger] out@[i] == inp[perm[i]] by {
                if i < k {
                    assert(out@[i] == old_out[i]);
                    assert(perm[i] == old_perm[i]);
                } else if i > k {
                    assert(out@[i] == old_out[i - 1]);
                    assert(perm[i] == old_perm[i - 1]);
                }
            }
            assert forall|i: int| 0 <= i < n + 1 implies 0 <= #[trigger] perm[i] < n + 1 by {
                if i < k {
                    assert(perm[i] == old_perm[i]);
                } else if i > k {
                    assert(perm[i] == old_perm[i - 1]);
                }
            }
            assert forall|i: int, j: int| 0 <= i < j < n + 1 implies #[trigger] perm[i] != #[trigger] perm[j] by {
                if i < k && j < k {
                    assert(perm[i] == old_perm[i] && perm[j] == old_perm[j]);
                } else if i < k && j > k {
                    assert(perm[i] == old_perm[i] && perm[j] == old_perm[j - 1]);
                } else if i > k && j > k {
                    assert(perm[i] == old_perm[i - 1] && perm[j] == old_perm[j - 1]);
                } else if i == k {
                    assert(perm[j] == old_perm[j - 1]);
                } else {
                    assert(perm[i] == old_perm[i]);
                }
            }
            assert forall|i: int, j: int| 0 <= i < j < out@.len() implies !less(
                #[trigger] out@[j],
                #[trigger] out@[i],
            ) by {
                if j < k {
                    assert(out@[i] == old_out[i] && out@[j] == old_out[j]);
                } else if i < k && j == k {
                    assert(out@[i] == old_out[i]);
                } else if i < k && j > k {
                    assert(out@[i] == old_out[i] && out@[j] == old_out[j - 1]);
                } else if i == k {
                    assert(out@[j] == old_out[j - 1]);
                    assert(less(x, old_out[j - 1]));
                } else {
                    assert(out@[i] == old_out[i - 1] && out@[j] == old_out[j - 1]);
                }
            }
            assert forall|i: int, j: int|
                0 <= i < j < n + 1 && equivalent(#[trigger] out@[i], #[trigger] out@[j], less) implies perm[i]
                < perm[j] by {
                if j < k {
                    assert(out@[i] == old_out[i] && out@[j] == old_out[j]);
                    assert(perm[i] == old_perm[i] && perm[j] == old_perm[j]);
                } else if i < k && j == k {
                    assert(perm[i] == old_perm[i]);
                } else if i < k && j > k {
                    assert(out@[i] == old_out[i] && out@[j] == old_out[j - 1]);
                    assert(perm[i] == old_perm[i] && perm[j] == old_perm[j - 1]);
                } else if i == k {
                    assert(out@[j] == old_out[j - 1]);
                    assert(less(x, old_out[j - 1]));
                } else {
                    assert(out@[i] == old_out[i - 1] && out@[j] == old_out[j - 1]);
                    assert(perm[i] == old_perm[i - 1] && perm[j] == old_perm[j - 1]);
                }
            }
        }
        n += 1;
    }
    assert(stable_order_by(out@, inp, perm, less));
    out
}

// ---------------------------------------------------------------------------
// Lexicographic order of character sequences
// ---------------------------------------------------------------------------

/// `a` comes strictly before `b` in lexicographic order of character codes
/// (the order of `str`/`String` comparison, since UTF-8 preserves the order
/// of code points).
pub open spec fn text_less(a: Seq<char>, b: Seq<char>) -> bool
    decreases a.len(),
{
    if a.len() == 0 {
        b.len() > 0
    } else if b.len() == 0 {
        false
    } else if a[0] != b[0] {
        a[0] < b[0]
    } else {
        text_less(a.drop_first(), b.drop_first())
    }
}

/// No text is less than itself.
pub proof fn lemma_text_less_irreflexive(a: Seq<char>)
    ensures
        !text_less(a, a),
    decreases a.len(),
{
    if a.len() > 0 {
        lemma_text_less_irreflexive(a.drop_first());
    }
}

/// The order of texts is transitive.
pub proof fn lemma_text_less_transitive(a: Seq<char>, b: Seq<char>, c: Seq<char>)
    requires
        text_less(a, b),
        text_less(b, c),
    ensures
        text_less(a, c),
    decreases a.len(),
{
    if a.len() > 0 && b.len() > 0 && c.len() > 0 && a[0] == b[0] && b[0] == c[0] {
        lemma_text_less_transitive(a.drop_first(), b.drop_first(), c.drop_first());
    }
}

/// Two sequences are equal or one is less than the other.
pub proof fn lemma_text_less_total(a: Seq<char>, b: Seq<char>)
    ensures
        text_less(a, b) || text_less(b, a) || a == b,
    decreases a.len(),
{
    if a.len() > 0 && b.len() > 0 && a[0] == b[0] {
        lemma_text_less_total(a.drop_first(), b.drop_first());
        if a.drop_first() == b.drop_first() {
            assert(a =~= seq![a[0]] + a.drop_first());
            assert(b =~= seq![b[0]] + b.drop_first());
        }
    } else if a.len() == 0 && b.len() == 0 {
        assert(a =~= b);
    }
}

/// Lexicographic comparison of two character vectors.
pub fn text_lt(a: &Vec<char>, b: &Vec<char>) -> (r: bool)
    ensures
        r == text_less(a@, b@),
{
    let mut i: usize = 0;
    assert(a@.skip(0) =~= a@);
    assert(b@.skip(0) =~= b@);
    while i < a.len() && i < b.len() && a[i] == b[i]
        invariant
            i <= a.len(),
            i <= b.len(),
            text_less(a@, b@) == text_less(a@.skip(i as int), b@.skip(i as int)),
        decreases a.len() - i,
    {
        assert(a@.skip(i as int).drop_first() =~= a@.skip(i + 1));
        assert(b@.skip(i as int).drop_first() =~= b@.skip(i + 1));
        i += 1;
    }
    if i == a.len() {
        i < b.len()
    } else if i == b.len() {
        false
    } else {
        a[i] < b[i]
    }
}

} // verus!
