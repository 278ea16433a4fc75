//! Orders used by the views: text in code-point order (the order of a
//! `BTreeMap<String, _>`) and the ranking of rows by amount.

use vstd::prelude::*;

verus! {

/// Lexicographic order of texts by code point; a proper prefix comes first.
pub open spec fn text_less(a: Seq<char>, b: Seq<char>) -> bool
    decreases a.len(),
{
    if a.len() == 0 {
        b.len() > 0
    } else if b.len() == 0 {
        false
    } else if a[0] != b[0] {
        (a[0] as int) < (b[0] as int)
    } else {
        text_less(a.drop_first(), b.drop_first())
    }
}

pub proof fn lemma_text_less_irreflexive(a: Seq<char>)
    ensures
        !text_less(a, a),
    decreases a.len(),
{
    if a.len() > 0 {
        lemma_text_less_irreflexive(a.drop_first());
    }
}

pub proof fn lemma_text_less_transitive(a: Seq<char>, b: Seq<char>, c: Seq<char>)
    requires
        text_less(a, b),
        text_less(b, c),
    ensures
        text_less(a, c),
    decreases a.len(),
{
    if a.len() > 0 && b.len() > 0 && c.len() > 0 {
        if a[0] == b[0] && b[0] == c[0] {
            lemma_text_less_transitive(a.drop_first(), b.drop_first(), c.drop_first());
        }
    }
}

pub proof fn lemma_text_less_total(a: Seq<char>, b: Seq<char>)
    ensures
        a =~= b || text_less(a, b) || text_less(b, a),
    decreases a.len(),
{
    if a.len() > 0 && b.len() > 0 {
        if a[0] == b[0] {
            lemma_text_less_total(a.drop_first(), b.drop_first());
            if a.drop_first() =~= b.drop_first() {
                assert(a =~= seq![a[0]] + a.drop_first());
                assert(b =~= seq![b[0]] + b.drop_first());
            }
        } else {
        }
    }
}

/// Whether `a` comes before `b` in code-point order.
pub fn text_precedes(a: &str, b: &str) -> (r: bool)
    ensures
        r == text_less(a@, b@),
{
    let la = a.unicode_len();
    let lb = b.unicode_len();
    let mut i: usize = 0;
    assert(a@.skip(0) =~= a@);
    assert(b@.skip(0) =~= b@);
    while i < la && i < lb
        invariant
            la == a@.len(),
            lb == b@.len(),
            i <= la,
            i <= lb,
            text_less(a@, b@) == text_less(a@.skip(i as int), b@.skip(i as int)),
        decreases la - i,
    {
        let ca = a.get_char(i);
        let cb = b.get_char(i);
        assert(a@.skip(i as int)[0] == ca);
        assert(b@.skip(i as int)[0] == cb);
        if ca != cb {
            return (ca as u32) < (cb as u32);
        }
        assert(a@.skip(i as int).drop_first() =~= a@.skip(i + 1));
        assert(b@.skip(i as int).drop_first() =~= b@.skip(i + 1));
        i = i + 1;
    }
    i < lb
}

/// Ranking of positions `i` and `j`: larger `primary` first, then larger
/// `secondary`, then smaller key, then the earlier position.
pub open spec fn rank_before(
    primary: Seq<i128>,
    secondary: Seq<i128>,
    keys: Seq<Seq<char>>,
    i: int,
    j: int,
) -> bool {
    ||| primary[i] > primary[j]
    ||| primary[i] == primary[j] && secondary[i] > secondary[j]
    ||| primary[i] == primary[j] && secondary[i] == secondary[j] && text_less(keys[i], keys[j])
    ||| primary[i] == primary[j] && secondary[i] == secondary[j] && keys[i] == keys[j] && i < j
}

pub proof fn lemma_rank_transitive(
    p: Seq<i128>,
    q: Seq<i128>,
    keys: Seq<Seq<char>>,
    i: int,
    j: int,
    k: int,
)
    requires
        rank_before(p, q, keys, i, j),
        rank_before(p, q, keys, j, k),
    ensures
        rank_before(p, q, keys, i, k),
{
    if p[i] == p[j] && p[j] == p[k] && q[i] == q[j] && q[j] == q[k] {
        if text_less(keys[i], keys[j]) && text_less(keys[j], keys[k]) {
            lemma_text_less_transitive(keys[i], keys[j], keys[k]);
        }
    }
}

pub proof fn lemma_rank_total(p: Seq<i128>, q: Seq<i128>, keys: Seq<Seq<char>>, i: int, j: int)
    requires
        i != j,
    ensures
        rank_before(p, q, keys, i, j) || rank_before(p, q, keys, j, i),
{
    lemma_text_less_total(keys[i], keys[j]);
}

fn rank_precedes(
    primary: &Vec<i128>,
    secondary: &Vec<i128>,
    keys: &Vec<String>,
    i: usize,
    j: usize,
) -> (r: bool)
    requires
        i < primary.len(),
        j < primary.len(),
        primary.len() == secondary.len(),
        primary.len() == keys.len(),
    ensures
        r == rank_before(primary@, secondary@, key_texts(keys@), i as int, j as int),
{
    assert(key_texts(keys@)[i as int] == keys@[i as int]@);
    assert(key_texts(keys@)[j as int] == keys@[j as int]@);
    if primary[i] != primary[j] {
        return primary[i] > primary[j];
    }
    if secondary[i] != secondary[j] {
        return secondary[i] > secondary[j];
    }
    if keys[i] == keys[j] {
        proof {
            lemma_text_less_irreflexive(keys@[i as int]@);
        }
        return i < j;
    }
    text_precedes(keys[i].as_str(), keys[j].as_str())
}

/// The texts of a sequence of strings.
pub open spec fn key_texts(keys: Seq<String>) -> Seq<Seq<char>> {
    Seq::new(keys.len(), |i: int| keys[i]@)
}

/// `order` lists each position below `n` exactly once.
pub open spec fn is_permutation(order: Seq<usize>, n: int) -> bool {
    &&& order.len() == n
    &&& order.no_duplicates()
    &&& forall|a: int| 0 <= a < n ==> #[trigger] order[a] < n
    &&& forall|k: usize| k < n ==> order.contains(k)
}

/// The positions `0..n` in ranking order (see `rank_before`).
pub fn rank_order(primary: &Vec<i128>, secondary: &Vec<i128>, keys: &Vec<String>) -> (order: Vec<
    usize,
>)
    requires
        primary.len() == secondary.len(),
        primary.len() == keys.len(),
    ensures
        is_permutation(order@, primary.len() as int),
        forall|a: int, b: int|
            0 <= a < b < order.len() ==> rank_before(
                primary@,
                secondary@,
                key_texts(keys@),
                #[trigger] order[a] as int,
                #[trigger] order[b] as int,
            ),
{
    let n = primary.len();
    let ghost ks = key_texts(keys@);
    let mut rem: Vec<usize> = Vec::new();
    let mut k: usize = 0;
    while k < n
        invariant
            k <= n,
            rem@ =~= Seq::new(k as nat, |t: int| t as usize),
        decreases n - k,
    {
        rem.push(k);
        k = k + 1;
    }
    let mut out: Vec<usize> = Vec::new();
    assert forall|v: usize| v < n implies out@.contains(v) || rem@.contains(v) by {
        assert(rem@[v as int] == v);
    }
    assert(out@ + rem@ =~= rem@);
    while rem.len() > 0
        invariant
            n == primary.len(),
            primary.len() == secondary.len(),
            primary.len() == keys.len(),
            ks == key_texts(keys@),
            out.len() + rem.len() == n,
            (out@ + rem@).no_duplicates(),
            forall|a: int| 0 <= a < out.len() ==> #[trigger] out[a] < n,
            forall|a: int| 0 <= a < rem.len() ==> #[trigger] rem[a] < n,
            forall|v: usize| v < n ==> out@.contains(v) || rem@.contains(v),
            forall|a: int, b: int|
                0 <= a < b < out.len() ==> rank_before(
                    primary@,
                    secondary@,
                    ks,
                    #[trigger] out[a] as int,
                    #[trigger] out[b] as int,
                ),
            forall|a: int, b: int|
                0 <= a < out.len() && 0 <= b < rem.len() ==> rank_before(
                    primary@,
                    secondary@,
                    ks,
                    #[trigger] out[a] as int,
                    #[trigger] rem[b] as int,
                ),
        decreases rem.len(),
    {
        assert forall|a: int, b: int| 0 <= a < b < rem.len() implies rem[a] != rem[b] by {
            assert((out@ + rem@)[out.len() + a] == rem[a]);
            assert((out@ + rem@)[out.len() + b] == rem[b]);
        }
        let mut best: usize = 0;
        let mut t: usize = 1;
        while t < rem.len()
            invariant
                n == primary.len(),
                primary.len() == secondary.len(),
                primary.len() == keys.len(),
                ks == key_texts(keys@),
                0 <= best < rem.len(),
                1 <= t <= rem.len(),
                best < t,
                forall|a: int| 0 <= a < rem.len() ==> #[trigger] rem[a] < n,
                forall|a: int, b: int| 0 <= a < b < rem.len() ==> rem[a] != rem[b],
                forall|u: int|
                    0 <= u < t && u != best ==> rank_before(
                        primary@,
                        secondary@,
                        ks,
                        rem[best as int] as int,
                        #[trigger] rem[u] as int,
                    ),
            decreases rem.len() - t,
        {
            if rank_precedes(primary, secondary, keys, rem[t], rem[best]) {
                proof {
                    assert forall|u: int| 0 <= u < t + 1 && u != t implies rank_before(
                        primary@,
                        secondary@,
                        ks,
                        rem[t as int] as int,
                        #[trigger] rem[u] as int,
                    ) by {
                        if u != best {
                            lemma_rank_transitive(
                                primary@,
                                secondary@,
                                ks,
                                rem[t as int] as int,
                                rem[best as int] as int,
                                rem[u] as int,
                            );
                        }
                    }
                }
                best = t;
            } else {
                proof {
                    lemma_rank_total(
                        primary@,
                        secondary@,
                        ks,
                        rem[t as int] as int,
                        rem[best as int] as int,
                    );
                }
            }
            t = t + 1;
        }
        let ghost old_out = out@;
        let ghost old_rem = rem@;
        let m = rem.remove(best);
        out.push(m);
        proof {
            assert(old_rem.remove(best as int) == rem@);
            assert forall|v: usize| v < n implies out@.contains(v) || rem@.contains(v) by {
                if old_out.contains(v) {
                    let a = choose|a: int| 0 <= a < old_out.len() && old_out[a] == v;
                    assert(out@[a] == v);
                } else {
                    assert(old_rem.contains(v));
                    let b = choose|b: int| 0 <= b < old_rem.len() && old_rem[b] == v;
                    if b == best {
                        assert(out@[out.len() - 1] == v);
                    } else if b < best {
                        assert(rem@[b] == v);
                    } else {
                        assert(rem@[b - 1] == v);
                    }
                }
            }
            assert forall|a: int, b: int|
                0 <= a < b < out.len() + rem.len() implies (out@ + rem@)[a] != (out@
                + rem@)[b] by {
                let s0 = old_out + old_rem;
                let s1 = out@ + rem@;
                // map positions of s1 back to distinct positions of s0
                let pa = if a < old_out.len() {
                    a
                } else if a == old_out.len() {
                    old_out.len() + best
                } else if a - old_out.len() - 1 < best {
                    a - 1
                } else {
                    a
                };
                let pb = if b < old_out.len() {
                    b
                } else if b == old_out.len() {
                    old_out.len() + best
                } else if b - old_out.len() - 1 < best {
                    b - 1
                } else {
                    b
                };
                assert(s1[a] == s0[pa]);
                assert(s1[b] == s0[pb]);
                assert(pa != pb);
            }
            assert forall|a: int, b: int|
                0 <= a < out.len() && 0 <= b < rem.len() implies rank_before(
                primary@,
                secondary@,
                ks,
                #[trigger] out[a] as int,
                #[trigger] rem[b] as int,
            ) by {
                let ob = if b < best {
                    b
                } else {
                    b + 1
                };
                assert(rem[b] == old_rem[ob]);
                if a < old_out.len() {
                    assert(out[a] == old_out[a]);
                } else {
                    assert(out[a] == old_rem[best as int]);
                }
            }
            assert forall|a: int, b: int| 0 <= a < b < out.len() implies rank_before(
                primary@,
                secondary@,
                ks,
                #[trigger] out[a] as int,
                #[trigger] out[b] as int,
            ) by {
                assert(out[a] == old_out[a]);
                if b < old_out.len() {
                    assert(out[b] == old_out[b]);
                } else {
                    assert(out[b] == old_rem[best as int]);
                }
            }
        }
    }
    proof {
        assert(out@ + rem@ =~= out@);
        assert forall|v: usize| v < n implies out@.contains(v) by {
            assert(!rem@.contains(v));
        }
    }
    out
}

} // verus!
