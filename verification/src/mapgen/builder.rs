//! Helpers that turn random numbers into the choices of a generated cave system.
use vstd::prelude::*;

verus! {

/// A number in `first..=last`, picked by `random`: each number is hit by random numbers
/// that agree modulo the length of the range.
pub fn random_in_range(first: u8, last: u8, random: u32) -> (r: u8)
    requires
        first <= last,
    ensures
        r == first + (random as int) % (last - first + 1),
        first <= r <= last,
{
    let outputs: u32 = (last - first) as u32 + 1;
    let lt_len: u32 = random % outputs;
    first + lt_len as u8
}

/// The sum of the values that are there.
pub open spec fn sum_present(s: Seq<Option<u8>>) -> int
    decreases s.len(),
{
    if s.len() == 0 {
        0
    } else {
        sum_present(s.drop_last()) + match s.last() {
            Some(v) => v as int,
            None => 0,
        }
    }
}

/// Whether the first `k` values are there and the others are not.
pub open spec fn present_prefix(s: Seq<Option<u8>>, k: int) -> bool {
    &&& 0 <= k <= s.len()
    &&& forall|i: int| 0 <= i < k ==> (#[trigger] s[i]) is Some
    &&& forall|i: int| k <= i < s.len() ==> (#[trigger] s[i]) is None
}

proof fn lemma_sum_present_push(s: Seq<Option<u8>>, v: Option<u8>)
    ensures
        sum_present(s.push(v)) == sum_present(s) + match v {
            Some(x) => x as int,
            None => 0,
        },
{
    assert(s.push(v).drop_last() =~= s);
}

proof fn lemma_sum_present_nones(s: Seq<Option<u8>>, k: int)
    requires
        0 <= k <= s.len(),
        forall|i: int| k <= i < s.len() ==> (#[trigger] s[i]) is None,
    ensures
        sum_present(s) == sum_present(s.take(k)),
    decreases s.len() - k,
{
    if k < s.len() {
        let t = s.take(k + 1);
        assert(t.drop_last() =~= s.take(k));
        assert(t.last() is None);
        lemma_sum_present_nones(s, k + 1);
    } else {
        assert(s.take(k) =~= s);
    }
}

/// Draws from `sampler` into `n` slots, in order, until the running sum of the draws would
/// pass `maximum`; that draw and the slots after it stay empty.
pub fn call_until_max_sum<F: FnMut() -> u8>(n: usize, maximum: u8, sampler: &mut F) -> (out: Vec<Option<u8>>)
    requires
        call_requires(*old(sampler), ()),
    ensures
        out.len() == n,
        exists|k: int| present_prefix(out@, k),
        sum_present(out@) <= maximum,
        forall|i: int| 0 <= i < out.len() ==> ((#[trigger] out@[i]) matches Some(v) ==> call_ensures(*old(sampler), (), v)),
        (exists|k: int| present_prefix(out@, k) && k < n) ==> exists|v: u8|
            call_ensures(*old(sampler), (), v) && sum_present(out@) + v > maximum,
{
    let ghost f = *sampler;
    let mut out: Vec<Option<u8>> = Vec::new();
    let mut sum: u8 = 0;
    let mut stopped = false;
    let ghost mut next_draw: u8 = 0;
    while out.len() < n
        invariant
            *sampler == f,
            call_requires(f, ()),
            out.len() <= n,
            sum == sum_present(out@),
            sum <= maximum,
            forall|i: int| 0 <= i < out.len() ==> ((#[trigger] out@[i]) matches Some(v) ==> call_ensures(f, (), v)),
            !stopped ==> present_prefix(out@, out.len() as int),
            stopped ==> exists|k: int| present_prefix(out@, k) && k < out.len(),
            stopped ==> call_ensures(f, (), next_draw) && sum + next_draw > maximum,
        decreases n - out.len(),
    {
        let ghost before = out@;
        if stopped {
            out.push(None);
            proof {
                lemma_sum_present_push(before, None);
                let k = choose|k: int| present_prefix(before, k) && k < before.len();
                assert(present_prefix(out@, k));
            }
        } else {
            let sample = sampler();
            match sum.checked_add(sample) {
                Some(total) if total <= maximum => {
                    sum = total;
                    out.push(Some(sample));
                    proof {
                        lemma_sum_present_push(before, Some(sample));
                        assert(present_prefix(out@, out.len() as int));
                    }
                },
                _ => {
                    stopped = true;
                    proof {
                        next_draw = sample;
                    }
                    out.push(None);
                    proof {
                        lemma_sum_present_push(before, None);
                        assert(present_prefix(out@, before.len() as int));
                    }
                },
            }
        }
    }
    proof {
        if !stopped {
            assert(present_prefix(out@, n as int));
        } else {
            assert forall|k: int| present_prefix(out@, k) && k < n implies sum_present(out@) + next_draw > maximum by {}
        }
    }
    out
}

/// The order that `permute` leaves `s` in: the last item swaps with the one that `sample`
/// picks modulo the length, and the rest is permuted by what remains of `sample`.
pub open spec fn permuted<T>(s: Seq<T>, sample: nat) -> Seq<T>
    decreases s.len(),
{
    if s.len() <= 1 {
        s
    } else {
        let last = s.len() - 1;
        let k = (sample % s.len()) as int;
        let t = s.update(last, s[k]).update(k, s[last]);
        permuted(t.take(last), sample / s.len()).push(t[last])
    }
}

/// Swapping two items keeps the items.
proof fn lemma_swap_multiset<T>(s: Seq<T>, i: int, j: int)
    requires
        0 <= i < s.len(),
        0 <= j < s.len(),
    ensures
        s.update(i, s[j]).update(j, s[i]).to_multiset() == s.to_multiset(),
{
    broadcast use vstd::seq_lib::group_to_multiset_ensures;
    broadcast use vstd::multiset::group_multiset_axioms;

    if i == j {
        assert(s.update(i, s[j]).update(j, s[i]) =~= s);
    } else {
        let t1 = s.update(i, s[j]);
        assert(t1[j] == s[j]);
        assert(s.to_multiset().count(s[i]) > 0) by {
            assert(s.contains(s[i]));
        }
        assert(s.to_multiset().count(s[j]) > 0) by {
            assert(s.contains(s[j]));
        }
        assert(t1.update(j, s[i]).to_multiset() =~= s.to_multiset());
    }
}

/// A permutation keeps the items: the law that `permute` only reorders.
pub proof fn lemma_permuted_keeps_items<T>(s: Seq<T>, sample: nat)
    ensures
        permuted(s, sample).to_multiset() == s.to_multiset(),
        permuted(s, sample).len() == s.len(),
    decreases s.len(),
{
    broadcast use vstd::seq_lib::group_to_multiset_ensures;

    if s.len() > 1 {
        let last = s.len() - 1;
        let k = (sample % s.len()) as int;
        let t = s.update(last, s[k]).update(k, s[last]);
        lemma_swap_multiset(s, last, k);
        lemma_permuted_keeps_items(t.take(last), sample / s.len());
        assert(t.take(last).push(t[last]) =~= t);
    }
}

/// `n!`.
pub open spec fn factorial(n: nat) -> nat
    decreases n,
{
    if n == 0 {
        1
    } else {
        n * factorial((n - 1) as nat)
    }
}

/// Swapping two items keeps a sequence free of duplicates.
proof fn lemma_swap_no_duplicates<T>(s: Seq<T>, i: int, j: int)
    requires
        0 <= i < s.len(),
        0 <= j < s.len(),
        s.no_duplicates(),
    ensures
        s.update(i, s[j]).update(j, s[i]).no_duplicates(),
{
    let t = s.update(i, s[j]).update(j, s[i]);
    let f = |a: int| if a == i { j } else if a == j { i } else { a };
    assert forall|a: int| 0 <= a < t.len() implies #[trigger] t[a] == s[f(a)] by {}
    assert forall|a: int, b: int| 0 <= a < t.len() && 0 <= b < t.len() && a != b implies t[a] != t[b] by {
        assert(t[a] == s[f(a)]);
        assert(t[b] == s[f(b)]);
    }
}

/// Samples below `n!` give `n` distinct items `n!` distinct orders: two different samples
/// never give the same order.
pub proof fn lemma_permuted_distinct<T>(s: Seq<T>, r1: nat, r2: nat)
    requires
        s.no_duplicates(),
        r1 < factorial(s.len()),
        r2 < factorial(s.len()),
        r1 != r2,
    ensures
        permuted(s, r1) != permuted(s, r2),
    decreases s.len(),
{
    let n = s.len();
    if n <= 1 {
        assert(factorial(0) == 1);
        assert(factorial(1) == 1 * factorial(0));
        assert(false);
    } else {
        let last = n - 1;
        let f1 = factorial((n - 1) as nat);
        assert(factorial(n) == n * f1);
        let k1 = (r1 % n) as int;
        let k2 = (r2 % n) as int;
        let t1 = s.update(last, s[k1]).update(k1, s[last]);
        let t2 = s.update(last, s[k2]).update(k2, s[last]);
        lemma_permuted_keeps_items(t1.take(last), r1 / n);
        lemma_permuted_keeps_items(t2.take(last), r2 / n);
        let p1 = permuted(t1.take(last), r1 / n).push(t1[last]);
        let p2 = permuted(t2.take(last), r2 / n).push(t2[last]);
        assert(permuted(s, r1) == p1);
        assert(permuted(s, r2) == p2);
        if k1 != k2 {
            assert(p1[last] == s[k1]);
            assert(p2[last] == s[k2]);
        } else {
            assert(t1 == t2);
            vstd::arithmetic::div_mod::lemma_fundamental_div_mod(r1 as int, n as int);
            vstd::arithmetic::div_mod::lemma_fundamental_div_mod(r2 as int, n as int);
            let q1 = r1 / n;
            let q2 = r2 / n;
            assert(q1 != q2) by (nonlinear_arith)
                requires
                    r1 == n * q1 + k1,
                    r2 == n * q2 + k2,
                    k1 == k2,
                    r1 != r2,
            ;
            assert(q1 < f1) by (nonlinear_arith)
                requires
                    r1 == n * q1 + k1,
                    0 <= k1,
                    r1 < n * f1,
                    n > 0,
            ;
            assert(q2 < f1) by (nonlinear_arith)
                requires
                    r2 == n * q2 + k2,
                    0 <= k2,
                    r2 < n * f1,
                    n > 0,
            ;
            lemma_swap_no_duplicates(s, last, k1);
            let u = t1.take(last);
            assert(u.no_duplicates());
            lemma_permuted_distinct(u, q1, q2);
            if p1 == p2 {
                assert(p1.take(last) =~= permuted(u, q1));
                assert(p2.take(last) =~= permuted(u, q2));
            }
        }
    }
}

/// `n!` is positive.
proof fn lemma_factorial_positive(n: nat)
    ensures
        factorial(n) > 0,
    decreases n,
{
    if n > 0 {
        lemma_factorial_positive((n - 1) as nat);
        assert(n * factorial((n - 1) as nat) > 0) by (nonlinear_arith)
            requires
                n > 0,
                factorial((n - 1) as nat) > 0,
        ;
    }
}

/// Samples that agree modulo `n!` give `n` items the same order.
pub proof fn lemma_permuted_mod<T>(s: Seq<T>, r: nat)
    ensures
        permuted(s, r) == permuted(s, r % factorial(s.len())),
    decreases s.len(),
{
    let n = s.len();
    lemma_factorial_positive(n);
    if n > 1 {
        let f1 = factorial((n - 1) as nat);
        lemma_factorial_positive((n - 1) as nat);
        assert(factorial(n) == n * f1);
        let r2 = r % factorial(n);
        vstd::arithmetic::div_mod::lemma_mod_mod(r as int, n as int, f1 as int);
        vstd::arithmetic::div_mod::lemma_mod_breakdown(r as int, n as int, f1 as int);
        let q = (r / n) % f1;
        assert(r2 == n * q + r % n);
        vstd::arithmetic::div_mod::lemma_fundamental_div_mod_converse(r2 as int, n as int, q as int, (r % n) as int);
        assert(r2 / n == q);
        assert(r2 % n == r % n);
        let last = n - 1;
        let k = (r % n) as int;
        let t = s.update(last, s[k]).update(k, s[last]);
        lemma_permuted_mod(t.take(last), r / n);
        assert(permuted(s, r) == permuted(t.take(last), r / n).push(t[last]));
        assert(permuted(s, r2) == permuted(t.take(last), r2 / n).push(t[last]));
    } else {
        assert(factorial(0) == 1);
        assert(factorial(1) == 1 * factorial(0));
    }
}

/// Reorders `items` by `random_sample`: each of the `n!` orders of `n` items comes from the
/// samples below `n!` that agree with it digit by digit.
pub fn permute<T>(items: &mut Vec<T>, random_sample: u32)
    requires
        old(items).len() <= u32::MAX,
    ensures
        final(items)@ == permuted(old(items)@, random_sample as nat),
{
    let ghost original = items@;
    let mut sample: u32 = random_sample;
    let mut n: usize = items.len();
    proof {
        assert(items@.take(n as int) =~= items@);
        assert(items@.skip(n as int) =~= Seq::<T>::empty());
        assert(permuted(items@.take(n as int), sample as nat) + items@.skip(n as int) =~= permuted(original, random_sample as nat));
    }
    while n > 1
        invariant
            n <= items.len(),
            items.len() == original.len(),
            items.len() <= u32::MAX,
            permuted(items@.take(n as int), sample as nat) + items@.skip(n as int) == permuted(original, random_sample as nat),
        decreases n,
    {
        let ghost v = items@;
        let len32: u32 = n as u32;
        let k: usize = (sample % len32) as usize;
        let last = n - 1;
        proof {
            let p = v.take(n as int);
            let t = p.update(last as int, p[k as int]).update(k as int, p[last as int]);
            assert(permuted(p, sample as nat) == permuted(t.take(last as int), (sample / len32) as nat).push(t[last as int]));
        }
        if k < last {
            let xl = items.remove(last);
            let xk = items.remove(k);
            items.insert(k, xl);
            items.insert(last, xk);
        }
        sample = sample / len32;
        proof {
            let p = v.take(n as int);
            let t = p.update(last as int, p[k as int]).update(k as int, p[last as int]);
            let w = items@;
            assert(w =~= v.update(last as int, v[k as int]).update(k as int, v[last as int]));
            assert(w.take(last as int) =~= t.take(last as int));
            assert(w[last as int] == t[last as int]);
            assert(w.skip(last as int) =~= seq![t[last as int]] + v.skip(n as int));
            assert(permuted(w.take(last as int), sample as nat) + w.skip(last as int) =~= permuted(t.take(last as int), sample as nat).push(
                t[last as int],
            ) + v.skip(n as int));
        }
        n = last;
    }
    proof {
        let p = items@.take(n as int);
        assert(permuted(p, sample as nat) == p);
        assert(p + items@.skip(n as int) =~= items@);
    }
}

} // verus!
