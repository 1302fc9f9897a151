//! Stable ordering by a numeric key.
//!
//! Several lists are shown sorted by a number (partition index, interface number),
//! with ties kept in the order they were found. The sort below computes the order as a
//! permutation of positions, so the items themselves are never moved or copied.
use vstd::prelude::*;

verus! {

/// `(keys[a], a)` comes strictly before `(keys[b], b)`.
pub open spec fn key_before(keys: Seq<u128>, a: int, b: int) -> bool {
    keys[a] < keys[b] || (keys[a] == keys[b] && a < b)
}

/// `order` lists every position of `keys` once, ascending by key and, among equal keys,
/// by position.
pub open spec fn is_stable_order(keys: Seq<u128>, order: Seq<usize>) -> bool {
    &&& order.len() == keys.len()
    &&& order.no_duplicates()
    &&& forall|j: int| 0 <= j < order.len() ==> order[j] < keys.len()
    &&& forall|a: int, b: int|
        0 <= a < b < order.len() ==> key_before(keys, order[a] as int, order[b] as int)
}

/// The positions of `keys` in stable ascending key order.
pub fn stable_order(keys: &Vec<u128>) -> (order: Vec<usize>)
    ensures
        is_stable_order(keys@, order@),
{
    let n = keys.len();
    let mut order: Vec<usize> = Vec::new();
    let mut i: usize = 0;
    while i < n
        invariant
            n == keys@.len(),
            i <= n,
            order@.len() == i,
            order@.no_duplicates(),
            forall|j: int| 0 <= j < order@.len() ==> order@[j] < i,
            forall|a: int, b: int|
                0 <= a < b < order@.len() ==> key_before(
                    keys@,
                    order@[a] as int,
                    order@[b] as int,
                ),
        decreases n - i,
    {
        let k = keys[i];
        let mut pos: usize = 0;
        while pos < order.len() && keys[order[pos]] <= k
            invariant
                pos <= order@.len(),
                n == keys@.len(),
                forall|j: int| 0 <= j < order@.len() ==> order@[j] < i,
                i < n,
                k == keys@[i as int],
                forall|j: int| 0 <= j < pos ==> keys@[order@[j] as int] <= k,
            decreases order@.len() - pos,
        {
            pos += 1;
        }
        let ghost old_order = order@;
        proof {
            assert forall|j: int| pos <= j < old_order.len() implies keys@[old_order[j] as int] > k by {
                if pos < old_order.len() {
                    assert(keys@[old_order[pos as int] as int] > k);
                    if j > pos {
                        assert(key_before(keys@, old_order[pos as int] as int, old_order[j] as int));
                    }
                }
            }
        }
        order.insert(pos, i);
        proof {
            let o = order@;
            assert(o =~= old_order.insert(pos as int, i));
            assert forall|j: int| 0 <= j < o.len() implies o[j] < i + 1 by {
                if j < pos {
                    assert(o[j] == old_order[j]);
                } else if j > pos {
                    assert(o[j] == old_order[j - 1]);
                }
            }
            assert forall|a: int, b: int| 0 <= a < b < o.len() implies key_before(
                keys@,
                o[a] as int,
                o[b] as int,
            ) by {
                if b < pos {
                    assert(o[a] == old_order[a] && o[b] == old_order[b]);
                } else if b == pos {
                    assert(o[a] == old_order[a]);
                } else if a > pos {
                    assert(o[a] == old_order[a - 1] && o[b] == old_order[b - 1]);
                } else if a == pos {
                    assert(o[b] == old_order[b - 1]);
                } else {
                    assert(o[a] == old_order[a] && o[b] == old_order[b - 1]);
                }
            }
            assert forall|a: int, b: int| 0 <= a < o.len() && 0 <= b < o.len() && a != b implies o[a]
                != o[b] by {
                if a != pos && b != pos {
                    let a1 = if a < pos {
                        a
                    } else {
                        a - 1
                    };
                    let b1 = if b < pos {
                        b
                    } else {
                        b - 1
                    };
                    assert(o[a] == old_order[a1] && o[b] == old_order[b1]);
                } else if a == pos {
                    let b1 = if b < pos {
                        b
                    } else {
                        b - 1
                    };
                    assert(o[b] == old_order[b1]);
                } else {
                    let a1 = if a < pos {
                        a
                    } else {
                        a - 1
                    };
                    assert(o[a] == old_order[a1]);
                }
            }
        }
        i += 1;
    }
    order
}

// ---------------------------------------------------------------- sequence keys

/// Lexicographic order on sequences of numbers, a proper prefix first: the order of
/// tuples, `Vec`s and strings (a string taken as its code points).
pub open spec fn lex_lt(a: Seq<u32>, b: Seq<u32>) -> bool
    decreases a.len(),
{
    if a.len() == 0 {
        b.len() > 0
    } else if b.len() == 0 {
        false
    } else if a[0] < b[0] {
        true
    } else if a[0] > b[0] {
        false
    } else {
        lex_lt(a.drop_first(), b.drop_first())
    }
}

proof fn lemma_lex_transitive(a: Seq<u32>, b: Seq<u32>, c: Seq<u32>)
    requires
        lex_lt(a, b),
        lex_lt(b, c),
    ensures
        lex_lt(a, c),
    decreases a.len(),
{
    if a.len() > 0 && b.len() > 0 && c.len() > 0 && a[0] == b[0] && b[0] == c[0] {
        lemma_lex_transitive(a.drop_first(), b.drop_first(), c.drop_first());
    }
}

proof fn lemma_lex_total(a: Seq<u32>, b: Seq<u32>)
    ensures
        lex_lt(a, b) || lex_lt(b, a) || a == b,
    decreases a.len(),
{
    if a.len() > 0 && b.len() > 0 && a[0] == b[0] {
        lemma_lex_total(a.drop_first(), b.drop_first());
        if a.drop_first() == b.drop_first() {
            assert(a =~= seq![a[0]] + a.drop_first());
            assert(b =~= seq![b[0]] + b.drop_first());
        }
    }
}

/// `a` is strictly less than `b`.
pub fn lex_less(a: &Vec<u32>, b: &Vec<u32>) -> (r: bool)
    ensures
        r == lex_lt(a@, b@),
{
    let mut i: usize = 0;
    proof {
        assert(a@.subrange(0, a@.len() as int) =~= a@);
        assert(b@.subrange(0, b@.len() as int) =~= b@);
    }
    while i < a.len() && i < b.len() && a[i] == b[i]
        invariant
            i <= a@.len(),
            i <= b@.len(),
            lex_lt(a@, b@) == lex_lt(a@.subrange(i as int, a@.len() as int), b@.subrange(i as int, b@.len() as int)),
        decreases a@.len() - i,
    {
        proof {
            let x = a@.subrange(i as int, a@.len() as int);
            let y = b@.subrange(i as int, b@.len() as int);
            assert(x.drop_first() =~= a@.subrange(i + 1, a@.len() as int));
            assert(y.drop_first() =~= b@.subrange(i + 1, b@.len() as int));
        }
        i += 1;
    }
    proof {
        let x = a@.subrange(i as int, a@.len() as int);
        let y = b@.subrange(i as int, b@.len() as int);
        if i < a@.len() {
            assert(x[0] == a@[i as int]);
        }
        if i < b@.len() {
            assert(y[0] == b@[i as int]);
        }
    }
    if i == a.len() {
        i < b.len()
    } else if i == b.len() {
        false
    } else {
        a[i] < b[i]
    }
}

/// `(keys[a], a)` comes strictly before `(keys[b], b)`.
pub open spec fn lex_key_before(keys: Seq<Seq<u32>>, a: int, b: int) -> bool {
    lex_lt(keys[a], keys[b]) || (keys[a] == keys[b] && a < b)
}

/// `order` lists every position of `keys` once, ascending by key and, among equal keys,
/// by position.
pub open spec fn is_stable_lex_order(keys: Seq<Seq<u32>>, order: Seq<usize>) -> bool {
    &&& order.len() == keys.len()
    &&& order.no_duplicates()
    &&& forall|j: int| 0 <= j < order.len() ==> order[j] < keys.len()
    &&& forall|a: int, b: int|
        0 <= a < b < order.len() ==> lex_key_before(keys, order[a] as int, order[b] as int)
}

pub open spec fn key_views(keys: Seq<Vec<u32>>) -> Seq<Seq<u32>> {
    keys.map_values(|k: Vec<u32>| k@)
}

/// The positions of `keys` in stable ascending lexicographic order.
pub fn stable_lex_order(keys: &Vec<Vec<u32>>) -> (order: Vec<usize>)
    ensures
        is_stable_lex_order(key_views(keys@), order@),
{
    let ghost kv = key_views(keys@);
    let n = keys.len();
    let mut order: Vec<usize> = Vec::new();
    let mut i: usize = 0;
    while i < n
        invariant
            n == keys@.len(),
            kv == key_views(keys@),
            i <= n,
            order@.len() == i,
            order@.no_duplicates(),
            forall|j: int| 0 <= j < order@.len() ==> order@[j] < i,
            forall|a: int, b: int|
                0 <= a < b < order@.len() ==> lex_key_before(kv, order@[a] as int, order@[b] as int),
        decreases n - i,
    {
        let mut pos: usize = 0;
        while pos < order.len() && !lex_less(&keys[i], &keys[order[pos]])
            invariant
                pos <= order@.len(),
                n == keys@.len(),
                kv == key_views(keys@),
                forall|j: int| 0 <= j < order@.len() ==> order@[j] < i,
                i < n,
                forall|j: int| 0 <= j < pos ==> !lex_lt(kv[i as int], #[trigger] kv[order@[j] as int]),
            decreases order@.len() - pos,
        {
            pos += 1;
        }
        let ghost old_order = order@;
        let ghost ki = kv[i as int];
        proof {
            assert forall|j: int| pos <= j < old_order.len() implies lex_lt(ki, #[trigger] kv[old_order[j] as int]) by {
                assert(lex_lt(ki, kv[old_order[pos as int] as int]));
                if j > pos {
                    assert(lex_key_before(kv, old_order[pos as int] as int, old_order[j] as int));
                    if lex_lt(kv[old_order[pos as int] as int], kv[old_order[j] as int]) {
                        lemma_lex_transitive(ki, kv[old_order[pos as int] as int], kv[old_order[j] as int]);
                    }
                }
            }
            assert forall|j: int| 0 <= j < pos implies lex_key_before(kv, #[trigger] old_order[j] as int, i as int) by {
                lemma_lex_total(ki, kv[old_order[j] as int]);
            }
        }
        order.insert(pos, i);
        proof {
            let o = order@;
            assert(o =~= old_order.insert(pos as int, i));
            assert forall|j: int| 0 <= j < o.len() implies o[j] < i + 1 by {
                if j < pos {
                    assert(o[j] == old_order[j]);
                } else if j > pos {
                    assert(o[j] == old_order[j - 1]);
                }
            }
            assert forall|a: int, b: int| 0 <= a < b < o.len() implies lex_key_before(
                kv,
                o[a] as int,
                o[b] as int,
            ) by {
                if b < pos {
                    assert(o[a] == old_order[a] && o[b] == old_order[b]);
                } else if b == pos {
                    assert(o[a] == old_order[a]);
                } else if a > pos {
                    assert(o[a] == old_order[a - 1] && o[b] == old_order[b - 1]);
                } else if a == pos {
                    assert(o[b] == old_order[b - 1]);
                    assert(lex_lt(ki, kv[old_order[b - 1] as int]));
                } else {
                    assert(o[a] == old_order[a] && o[b] == old_order[b - 1]);
                }
            }
            assert forall|a: int, b: int| 0 <= a < o.len() && 0 <= b < o.len() && a != b implies o[a]
                != o[b] by {
                if a != pos && b != pos {
                    let a1 = if a < pos {
                        a
                    } else {
                        a - 1
                    };
                    let b1 = if b < pos {
                        b
                    } else {
                        b - 1
                    };
                    assert(o[a] == old_order[a1] && o[b] == old_order[b1]);
                } else if a == pos {
                    let b1 = if b < pos {
                        b
                    } else {
                        b - 1
                    };
                    assert(o[b] == old_order[b1]);
                } else {
                    let a1 = if a < pos {
                        a
                    } else {
                        a - 1
                    };
                    assert(o[a] == old_order[a1]);
                }
            }
        }
        i += 1;
    }
    order
}

} // verus!
