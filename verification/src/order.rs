//! Ordering by text keys: texts compare character by character by code
//! point (the order of their UTF-8 bytes), keys made of several texts
//! compare text by text, and sorting keeps equal keys in their order.
use vstd::prelude::*;

verus! {

/// Three-way comparison of two texts: negative, zero or positive as `a`
/// sorts before, with or after `b`.
pub open spec fn text_order(a: Seq<char>, b: Seq<char>) -> int
    decreases a.len(),
{
    if a.len() == 0 {
        if b.len() == 0 {
            0
        } else {
            -1
        }
    } else if b.len() == 0 {
        1
    } else if a[0] < b[0] {
        -1
    } else if a[0] > b[0] {
        1
    } else {
        text_order(a.drop_first(), b.drop_first())
    }
}

/// Three-way comparison of two keys of the same number of texts, the first
/// text deciding first.
pub open spec fn key_order(a: Seq<Seq<char>>, b: Seq<Seq<char>>) -> int
    decreases a.len(),
{
    if a.len() == 0 || b.len() == 0 {
        0
    } else if text_order(a[0], b[0]) != 0 {
        text_order(a[0], b[0])
    } else {
        key_order(a.drop_first(), b.drop_first())
    }
}

proof fn lemma_text_order(a: Seq<char>, b: Seq<char>)
    ensures
        -1 <= text_order(a, b) <= 1,
        text_order(a, b) == -text_order(b, a),
        text_order(a, b) == 0 <==> a == b,
    decreases a.len(),
{
    if a.len() > 0 && b.len() > 0 {
        lemma_text_order(a.drop_first(), b.drop_first());
        if a[0] == b[0] && a.drop_first() == b.drop_first() {
            assert(a =~= seq![a[0]] + a.drop_first());
            assert(b =~= seq![b[0]] + b.drop_first());
        }
        if a == b {
            assert(a.drop_first() =~= b.drop_first());
        }
    } else if a.len() == 0 && b.len() == 0 {
        assert(a =~= b);
    }
}

proof fn lemma_text_order_trans(a: Seq<char>, b: Seq<char>, c: Seq<char>)
    requires
        text_order(a, b) <= 0,
        text_order(b, c) <= 0,
    ensures
        text_order(a, c) <= 0,
        text_order(a, b) < 0 || text_order(b, c) < 0 ==> text_order(a, c) < 0,
    decreases a.len(),
{
    lemma_text_order(a, b);
    lemma_text_order(b, c);
    lemma_text_order(a, c);
    if a.len() > 0 && b.len() > 0 && c.len() > 0 {
        if a[0] == b[0] && b[0] == c[0] {
            lemma_text_order_trans(a.drop_first(), b.drop_first(), c.drop_first());
        }
    }
}

/// Key comparison is a total order: antisymmetric, with equality at zero.
pub proof fn lemma_key_order(a: Seq<Seq<char>>, b: Seq<Seq<char>>)
    requires
        a.len() == b.len(),
    ensures
        -1 <= key_order(a, b) <= 1,
        key_order(a, b) == -key_order(b, a),
        key_order(a, b) == 0 <==> a == b,
    decreases a.len(),
{
    if a.len() > 0 {
        lemma_text_order(a[0], b[0]);
        lemma_key_order(a.drop_first(), b.drop_first());
        if a[0] == b[0] && a.drop_first() == b.drop_first() {
            assert(a =~= seq![a[0]] + a.drop_first());
            assert(b =~= seq![b[0]] + b.drop_first());
        }
        if a == b {
            assert(a.drop_first() =~= b.drop_first());
        }
    } else {
        assert(a =~= b);
    }
}

/// Key comparison is transitive.
pub proof fn lemma_key_order_trans(a: Seq<Seq<char>>, b: Seq<Seq<char>>, c: Seq<Seq<char>>)
    requires
        a.len() == b.len(),
        b.len() == c.len(),
        key_order(a, b) <= 0,
        key_order(b, c) <= 0,
    ensures
        key_order(a, c) <= 0,
        key_order(a, b) < 0 || key_order(b, c) < 0 ==> key_order(a, c) < 0,
    decreases a.len(),
{
    if a.len() > 0 {
        lemma_text_order(a[0], b[0]);
        lemma_text_order(b[0], c[0]);
        lemma_text_order(a[0], c[0]);
        if text_order(a[0], b[0]) <= 0 && text_order(b[0], c[0]) <= 0 {
            lemma_text_order_trans(a[0], b[0], c[0]);
        }
        if text_order(a[0], b[0]) == 0 && text_order(b[0], c[0]) == 0 {
            lemma_key_order_trans(a.drop_first(), b.drop_first(), c.drop_first());
        }
    }
}

/// `r` lists every position of `keys` once, ordered by key, equal keys in
/// their original order.
pub open spec fn sorted_order(keys: Seq<Seq<Seq<char>>>, r: Seq<usize>) -> bool {
    &&& r.len() == keys.len()
    &&& forall|k: int| 0 <= k < r.len() ==> (#[trigger] r[k]) < keys.len()
    &&& forall|i: int| 0 <= i < keys.len() ==> #[trigger] r.contains(i as usize)
    &&& forall|a: int, b: int|
        0 <= a < b < r.len() ==> key_order(keys[#[trigger] r[a] as int], keys[#[trigger] r[b] as int]) < 0 || (
        keys[r[a] as int] == keys[r[b] as int] && r[a] < r[b])
}

/// The texts of a key.
pub open spec fn key_view(k: Vec<Vec<char>>) -> Seq<Seq<char>> {
    k@.map_values(|t: Vec<char>| t@)
}

/// The texts of some keys.
pub open spec fn keys_view(ks: Seq<Vec<Vec<char>>>) -> Seq<Seq<Seq<char>>> {
    ks.map_values(|k: Vec<Vec<char>>| key_view(k))
}

fn compare_texts(a: &[char], b: &[char]) -> (c: i8)
    ensures
        c as int == text_order(a@, b@),
{
    let mut i: usize = 0;
    assert(a@.skip(0) =~= a@ && b@.skip(0) =~= b@);
    while i < a.len() && i < b.len()
        invariant
            i <= a@.len(),
            i <= b@.len(),
            text_order(a@, b@) == text_order(a@.skip(i as int), b@.skip(i as int)),
        decreases a.len() - i,
    {
        if a[i] < b[i] {
            return -1;
        }
        if a[i] > b[i] {
            return 1;
        }
        assert(a@.skip(i as int).drop_first() =~= a@.skip(i + 1));
        assert(b@.skip(i as int).drop_first() =~= b@.skip(i + 1));
        i += 1;
    }
    if i < a.len() {
        1
    } else if i < b.len() {
        -1
    } else {
        0
    }
}

/// Compares two keys of the same number of texts.
pub fn compare_keys(a: &Vec<Vec<char>>, b: &Vec<Vec<char>>) -> (c: i8)
    requires
        a@.len() == b@.len(),
    ensures
        c as int == key_order(key_view(*a), key_view(*b)),
{
    let ghost ka = key_view(*a);
    let ghost kb = key_view(*b);
    let mut i: usize = 0;
    assert(ka.skip(0) =~= ka && kb.skip(0) =~= kb);
    while i < a.len()
        invariant
            a@.len() == b@.len(),
            ka == key_view(*a),
            kb == key_view(*b),
            i <= a@.len(),
            key_order(ka, kb) == key_order(ka.skip(i as int), kb.skip(i as int)),
        decreases a.len() - i,
    {
        let c = compare_texts(&a[i], &b[i]);
        assert(ka.skip(i as int)[0] == a@[i as int]@);
        assert(kb.skip(i as int)[0] == b@[i as int]@);
        if c != 0 {
            return c;
        }
        assert(ka.skip(i as int).drop_first() =~= ka.skip(i + 1));
        assert(kb.skip(i as int).drop_first() =~= kb.skip(i + 1));
        i += 1;
    }
    0
}

/// The positions of `keys` in sorted order; equal keys keep their order.
pub fn stable_order(keys: &Vec<Vec<Vec<char>>>) -> (r: Vec<usize>)
    requires
        forall|i: int, j: int|
            0 <= i < keys@.len() && 0 <= j < keys@.len() ==> (#[trigger] keys@[i])@.len() == (#[trigger] keys@[j])@.len(),
    ensures
        sorted_order(keys_view(keys@), r@),
{
    let ghost ks = keys_view(keys@);
    let mut r: Vec<usize> = Vec::new();
    let mut i: usize = 0;
    while i < keys.len()
        invariant
            ks == keys_view(keys@),
            forall|x: int, y: int|
                0 <= x < keys@.len() && 0 <= y < keys@.len() ==> (#[trigger] keys@[x])@.len() == (#[trigger] keys@[y])@.len(),
            i <= keys@.len(),
            r@.len() == i,
            forall|k: int| 0 <= k < r@.len() ==> (#[trigger] r@[k]) < i,
            forall|j: int| 0 <= j < i ==> #[trigger] r@.contains(j as usize),
            forall|a: int, b: int|
                0 <= a < b < r@.len() ==> key_order(ks[#[trigger] r@[a] as int], ks[#[trigger] r@[b] as int]) < 0 || (
                ks[r@[a] as int] == ks[r@[b] as int] && r@[a] < r@[b]),
        decreases keys.len() - i,
    {
        let mut p: usize = 0;
        while p < r.len() && compare_keys(&keys[r[p]], &keys[i]) <= 0
            invariant
                ks == keys_view(keys@),
                forall|x: int, y: int|
                    0 <= x < keys@.len() && 0 <= y < keys@.len() ==> (#[trigger] keys@[x])@.len() == (#[trigger] keys@[y])@.len(),
                i < keys@.len(),
                p <= r@.len(),
                forall|k: int| 0 <= k < r@.len() ==> (#[trigger] r@[k]) < i,
                forall|a: int| 0 <= a < p ==> key_order(ks[(#[trigger] r@[a]) as int], ks[i as int]) <= 0,
            decreases r.len() - p,
        {
            p += 1;
        }
        let ghost old_r = r@;
        proof {
            if p < old_r.len() {
                assert(key_order(ks[old_r[p as int] as int], ks[i as int]) > 0);
            }
        }
        r.insert(p, i);
        proof {
            old_r.insert_ensures(p as int, i);
            assert forall|k: int| 0 <= k < r@.len() implies (#[trigger] r@[k]) < i + 1 by {
                if k < p {
                    assert(r@[k] == old_r[k]);
                } else if k > p {
                    assert(r@[k] == old_r[k - 1]);
                }
            }
            assert forall|j: int| 0 <= j < i + 1 implies #[trigger] r@.contains(j as usize) by {
                if j == i {
                    assert(r@[p as int] == i);
                } else {
                    assert(old_r.contains(j as usize));
                    let w = choose|w: int| 0 <= w < old_r.len() && old_r[w] == j as usize;
                    if w < p {
                        assert(r@[w] == j as usize);
                    } else {
                        assert(r@[w + 1] == j as usize);
                    }
                }
            }
            assert forall|a: int, b: int| 0 <= a < b < r@.len() implies key_order(
                ks[#[trigger] r@[a] as int],
                ks[#[trigger] r@[b] as int],
            ) < 0 || (ks[r@[a] as int] == ks[r@[b] as int] && r@[a] < r@[b]) by {
                let ki = ks[i as int];
                if b < p {
                    assert(r@[a] == old_r[a] && r@[b] == old_r[b]);
                } else if b == p {
                    let x = ks[old_r[a] as int];
                    assert(r@[a] == old_r[a]);
                    assert(key_order(x, ki) <= 0);
                    lemma_key_order(x, ki);
                } else if a == p {
                    let y = ks[old_r[b - 1] as int];
                    let z = ks[old_r[p as int] as int];
                    assert(r@[b] == old_r[b - 1]);
                    lemma_key_order(ki, z);
                    if b - 1 > p {
                        lemma_key_order(z, y);
                        if key_order(z, y) < 0 {
                            lemma_key_order_trans(ki, z, y);
                        } else {
                            assert(z == y);
                        }
                    }
                } else if a < p {
                    assert(r@[a] == old_r[a] && r@[b] == old_r[b - 1]);
                } else {
                    assert(r@[a] == old_r[a - 1] && r@[b] == old_r[b - 1]);
                }
            }
        }
        i += 1;
    }
    r
}

} // verus!
