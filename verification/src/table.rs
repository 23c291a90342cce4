use vstd::prelude::*;

use crate::bytes::lex_lt;

verus! {

/// The value under the first occurrence of key `k` in a pair table.
pub open spec fn lookup(t: Seq<(Seq<u8>, Seq<u8>)>, k: Seq<u8>) -> Option<Seq<u8>>
    decreases t.len(),
{
    if t.len() == 0 {
        None
    } else if t[0].0 == k {
        Some(t[0].1)
    } else {
        lookup(t.drop_first(), k)
    }
}

pub open spec fn has_key(t: Seq<(Seq<u8>, Seq<u8>)>, k: Seq<u8>) -> bool {
    lookup(t, k) is Some
}

pub open spec fn unique_keys(t: Seq<(Seq<u8>, Seq<u8>)>) -> bool {
    forall|i: int, j: int| 0 <= i < j < t.len() ==> (#[trigger] t[i]).0 != (#[trigger] t[j]).0
}

/// Keys strictly ascending in byte order.
pub open spec fn sorted_keys(t: Seq<(Seq<u8>, Seq<u8>)>) -> bool {
    forall|i: int, j: int| 0 <= i < j < t.len() ==> lex_lt((#[trigger] t[i]).0, (#[trigger] t[j]).0)
}

pub proof fn lemma_sorted_keys_unique(t: Seq<(Seq<u8>, Seq<u8>)>)
    requires
        sorted_keys(t),
    ensures
        unique_keys(t),
{
    assert forall|i: int, j: int| 0 <= i < j < t.len() implies (#[trigger] t[i]).0 != (
    #[trigger] t[j]).0 by {
        crate::bytes::lemma_lex_lt_irreflexive(t[i].0, t[j].0);
    }
}

/// A key at an index whose earlier entries differ is found there.
pub proof fn lemma_lookup_at(t: Seq<(Seq<u8>, Seq<u8>)>, i: int)
    requires
        0 <= i < t.len(),
        forall|j: int| 0 <= j < i ==> (#[trigger] t[j]).0 != t[i].0,
    ensures
        lookup(t, t[i].0) == Some(t[i].1),
    decreases i,
{
    if i > 0 {
        assert forall|j: int| 0 <= j < i - 1 implies (#[trigger] t.drop_first()[j]).0 != t.drop_first()[
            i - 1].0 by {
            assert(t.drop_first()[j] == t[j + 1]);
            assert(t.drop_first()[i - 1] == t[i]);
        }
        lemma_lookup_at(t.drop_first(), i - 1);
        assert(t.drop_first()[i - 1] == t[i]);
    }
}

/// With unique keys, every entry is what lookup finds.
pub proof fn lemma_lookup_all(t: Seq<(Seq<u8>, Seq<u8>)>)
    requires
        unique_keys(t),
    ensures
        forall|i: int| 0 <= i < t.len() ==> lookup(t, (#[trigger] t[i]).0) == Some(t[i].1),
{
    assert forall|i: int| 0 <= i < t.len() implies lookup(t, (#[trigger] t[i]).0) == Some(
        t[i].1,
    ) by {
        lemma_lookup_at(t, i);
    }
}

/// A key is found exactly when some entry holds it.
pub proof fn lemma_lookup_some(t: Seq<(Seq<u8>, Seq<u8>)>, k: Seq<u8>)
    ensures
        has_key(t, k) <==> exists|i: int| 0 <= i < t.len() && (#[trigger] t[i]).0 == k,
        match lookup(t, k) {
            Some(v) => exists|i: int| 0 <= i < t.len() && #[trigger] t[i] == (k, v),
            None => true,
        },
    decreases t.len(),
{
    if t.len() > 0 && t[0].0 != k {
        lemma_lookup_some(t.drop_first(), k);
        if has_key(t, k) {
            let i = choose|i: int|
                0 <= i < t.drop_first().len() && (#[trigger] t.drop_first()[i]).0 == k;
            assert(t[i + 1].0 == k);
        }
        if exists|i: int| 0 <= i < t.len() && (#[trigger] t[i]).0 == k {
            let i = choose|i: int| 0 <= i < t.len() && (#[trigger] t[i]).0 == k;
            assert(t.drop_first()[i - 1].0 == k);
        }
        match lookup(t, k) {
            Some(v) => {
                let i = choose|i: int|
                    0 <= i < t.drop_first().len() && #[trigger] t.drop_first()[i] == (k, v);
                assert(t[i + 1] == (k, v));
            },
            None => {},
        }
    }
}

/// Every element a filter keeps was in the sequence.
pub proof fn lemma_filter_contained<A>(s: Seq<A>, pred: spec_fn(A) -> bool)
    ensures
        forall|i: int|
            0 <= i < s.filter(pred).len() ==> s.contains(#[trigger] s.filter(pred)[i]),
    decreases s.len(),
{
    if s.len() > 0 {
        lemma_filter_contained(s.drop_last(), pred);
        s.drop_last().lemma_filter_push(s.last(), pred);
        assert(s =~= s.drop_last().push(s.last()));
        let f = s.filter(pred);
        let fd = s.drop_last().filter(pred);
        assert forall|i: int| 0 <= i < f.len() implies s.contains(#[trigger] f[i]) by {
            if pred(s.last()) && i == f.len() - 1 {
                assert(f[i] == s.last());
                assert(s[s.len() - 1] == s.last());
            } else {
                assert(f[i] == fd[i]);
                assert(s.drop_last().contains(fd[i]));
                let j = choose|j: int|
                    0 <= j < s.drop_last().len() && s.drop_last()[j] == fd[i];
                assert(s[j] == fd[i]);
            }
        }
    }
}

/// A filter keeps everything when the predicate holds throughout.
pub proof fn lemma_filter_all<A>(s: Seq<A>, pred: spec_fn(A) -> bool)
    requires
        forall|i: int| 0 <= i < s.len() ==> pred(#[trigger] s[i]),
    ensures
        s.filter(pred) == s,
    decreases s.len(),
{
    if s.len() > 0 {
        assert forall|i: int| 0 <= i < s.drop_last().len() implies pred(
            #[trigger] s.drop_last()[i],
        ) by {
            assert(s.drop_last()[i] == s[i]);
        }
        lemma_filter_all(s.drop_last(), pred);
        s.drop_last().lemma_filter_push(s.last(), pred);
        assert(s =~= s.drop_last().push(s.last()));
        assert(pred(s[s.len() - 1]));
        assert(s.filter(pred) =~= s);
    }
}

/// A filter keeps nothing when the predicate fails throughout.
pub proof fn lemma_filter_none<A>(s: Seq<A>, pred: spec_fn(A) -> bool)
    requires
        forall|i: int| 0 <= i < s.len() ==> !pred(#[trigger] s[i]),
    ensures
        s.filter(pred) == Seq::<A>::empty(),
    decreases s.len(),
{
    if s.len() == 0 {
        assert(s.filter(pred) =~= Seq::<A>::empty());
    } else {
        assert forall|i: int| 0 <= i < s.drop_last().len() implies !pred(
            #[trigger] s.drop_last()[i],
        ) by {
            assert(s.drop_last()[i] == s[i]);
        }
        lemma_filter_none(s.drop_last(), pred);
        s.drop_last().lemma_filter_push(s.last(), pred);
        assert(s =~= s.drop_last().push(s.last()));
        assert(!pred(s[s.len() - 1]));
    }
}

/// Filtering a key-sorted table keeps it key-sorted.
pub proof fn lemma_filter_sorted(t: Seq<(Seq<u8>, Seq<u8>)>, pred: spec_fn((Seq<u8>, Seq<u8>)) -> bool)
    requires
        sorted_keys(t),
    ensures
        sorted_keys(t.filter(pred)),
    decreases t.len(),
{
    if t.len() > 0 {
        assert(sorted_keys(t.drop_last())) by {
            assert forall|i: int, j: int| 0 <= i < j < t.drop_last().len() implies lex_lt(
                (#[trigger] t.drop_last()[i]).0,
                (#[trigger] t.drop_last()[j]).0,
            ) by {
                assert(t.drop_last()[i] == t[i]);
                assert(t.drop_last()[j] == t[j]);
            }
        }
        lemma_filter_sorted(t.drop_last(), pred);
        lemma_filter_contained(t.drop_last(), pred);
        t.drop_last().lemma_filter_push(t.last(), pred);
        assert(t =~= t.drop_last().push(t.last()));
        let f = t.filter(pred);
        let fd = t.drop_last().filter(pred);
        if pred(t[t.len() - 1]) {
            assert(f == fd.push(t.last()));
            assert forall|i: int, j: int| 0 <= i < j < f.len() implies lex_lt(
                (#[trigger] f[i]).0,
                (#[trigger] f[j]).0,
            ) by {
                if j < f.len() - 1 {
                    assert(f[i] == fd[i]);
                    assert(f[j] == fd[j]);
                } else {
                    assert(f[i] == fd[i]);
                    assert(t.drop_last().contains(fd[i]));
                    let x = choose|x: int|
                        0 <= x < t.drop_last().len() && t.drop_last()[x] == fd[i];
                    assert(t[x] == fd[i]);
                    assert(lex_lt(t[x].0, t[t.len() - 1].0));
                }
            }
        }
    }
}

/// What lookup finds in a filtered key-sorted table.
pub proof fn lemma_filter_lookup(
    t: Seq<(Seq<u8>, Seq<u8>)>,
    pred: spec_fn((Seq<u8>, Seq<u8>)) -> bool,
    k: Seq<u8>,
)
    requires
        sorted_keys(t),
    ensures
        lookup(t.filter(pred), k) == (match lookup(t, k) {
            Some(v) => if pred((k, v)) {
                Some(v)
            } else {
                None
            },
            None => None::<Seq<u8>>,
        }),
{
    let f = t.filter(pred);
    lemma_filter_sorted(t, pred);
    lemma_sorted_keys_unique(t);
    lemma_sorted_keys_unique(f);
    lemma_filter_contained(t, pred);
    t.filter_lemma(pred);
    lemma_lookup_some(t, k);
    lemma_lookup_some(f, k);
    lemma_lookup_all(t);
    lemma_lookup_all(f);
    match lookup(t, k) {
        Some(v) => {
            let i = choose|i: int| 0 <= i < t.len() && #[trigger] t[i] == (k, v);
            if pred((k, v)) {
                assert(f.contains(t[i]));
                let j = choose|j: int| 0 <= j < f.len() && #[trigger] f[j] == (k, v);
                assert(lookup(f, k) == Some(v));
            } else {
                if lookup(f, k) is Some {
                    let j = choose|j: int| 0 <= j < f.len() && (#[trigger] f[j]).0 == k;
                    assert(t.contains(f[j]));
                    let x = choose|x: int| 0 <= x < t.len() && #[trigger] t[x] == f[j];
                    assert(t[x].0 == k && t[i].0 == k);
                    if x != i {
                        assert(false);
                    }
                    assert(pred(f[j]));
                    assert(false);
                }
            }
        },
        None => {
            if lookup(f, k) is Some {
                let j = choose|j: int| 0 <= j < f.len() && (#[trigger] f[j]).0 == k;
                assert(t.contains(f[j]));
                let x = choose|x: int| 0 <= x < t.len() && #[trigger] t[x] == f[j];
                assert(t[x].0 == k);
            }
        },
    }
}

/// Lookup searches the front table first.
pub proof fn lemma_lookup_append(x: Seq<(Seq<u8>, Seq<u8>)>, y: Seq<(Seq<u8>, Seq<u8>)>, k: Seq<u8>)
    ensures
        lookup(x + y, k) == (match lookup(x, k) {
            Some(v) => Some(v),
            None => lookup(y, k),
        }),
    decreases x.len(),
{
    if x.len() == 0 {
        assert(x + y =~= y);
    } else {
        assert((x + y).drop_first() =~= x.drop_first() + y);
        assert((x + y)[0] == x[0]);
        lemma_lookup_append(x.drop_first(), y, k);
    }
}

/// Two key-sorted tables that look up alike are the same table.
pub proof fn lemma_table_ext(t1: Seq<(Seq<u8>, Seq<u8>)>, t2: Seq<(Seq<u8>, Seq<u8>)>)
    requires
        sorted_keys(t1),
        sorted_keys(t2),
        forall|k: Seq<u8>| #[trigger] lookup(t1, k) == lookup(t2, k),
    ensures
        t1 == t2,
    decreases t1.len(),
{
    lemma_sorted_keys_unique(t1);
    lemma_sorted_keys_unique(t2);
    if t1.len() == 0 && t2.len() == 0 {
        assert(t1 =~= t2);
    } else if t1.len() == 0 {
        lemma_lookup_all(t2);
        assert(lookup(t2, t2[0].0) == Some(t2[0].1));
        assert(lookup(t1, t2[0].0) is None);
    } else if t2.len() == 0 {
        lemma_lookup_all(t1);
        assert(lookup(t1, t1[0].0) == Some(t1[0].1));
        assert(lookup(t2, t1[0].0) is None);
    } else {
        lemma_lookup_all(t1);
        lemma_lookup_all(t2);
        lemma_lookup_some(t1, t2[0].0);
        lemma_lookup_some(t2, t1[0].0);
        // Each head key appears in the other table, and each head is its
        // table's least key, so the heads agree.
        assert(t1[0].0 == t2[0].0) by {
            assert(lookup(t2, t1[0].0) == Some(t1[0].1));
            let i = choose|i: int| 0 <= i < t2.len() && (#[trigger] t2[i]).0 == t1[0].0;
            assert(lookup(t1, t2[0].0) == Some(t2[0].1));
            let j = choose|j: int| 0 <= j < t1.len() && (#[trigger] t1[j]).0 == t2[0].0;
            if i > 0 {
                assert(lex_lt(t2[0].0, t2[i].0));
                if j > 0 {
                    assert(lex_lt(t1[0].0, t1[j].0));
                    crate::bytes::lemma_lex_lt_transitive(t1[0].0, t1[j].0, t2[i].0);
                    crate::bytes::lemma_lex_lt_irreflexive(t1[0].0, t2[i].0);
                }
            }
        }
        assert(t1[0] == t2[0]) by {
            assert(lookup(t1, t1[0].0) == Some(t1[0].1));
            assert(lookup(t2, t2[0].0) == Some(t2[0].1));
        }
        let d1 = t1.drop_first();
        let d2 = t2.drop_first();
        assert(sorted_keys(d1)) by {
            assert forall|i: int, j: int| 0 <= i < j < d1.len() implies lex_lt(
                (#[trigger] d1[i]).0,
                (#[trigger] d1[j]).0,
            ) by {
                assert(d1[i] == t1[i + 1]);
                assert(d1[j] == t1[j + 1]);
            }
        }
        assert(sorted_keys(d2)) by {
            assert forall|i: int, j: int| 0 <= i < j < d2.len() implies lex_lt(
                (#[trigger] d2[i]).0,
                (#[trigger] d2[j]).0,
            ) by {
                assert(d2[i] == t2[i + 1]);
                assert(d2[j] == t2[j + 1]);
            }
        }
        assert forall|k: Seq<u8>| #[trigger] lookup(d1, k) == lookup(d2, k) by {
            if k == t1[0].0 {
                lemma_lookup_some(d1, k);
                lemma_lookup_some(d2, k);
                if lookup(d1, k) is Some {
                    let i = choose|i: int| 0 <= i < d1.len() && (#[trigger] d1[i]).0 == k;
                    assert(d1[i] == t1[i + 1]);
                    assert(false);
                }
                if lookup(d2, k) is Some {
                    let i = choose|i: int| 0 <= i < d2.len() && (#[trigger] d2[i]).0 == k;
                    assert(d2[i] == t2[i + 1]);
                    assert(false);
                }
            } else {
                assert(lookup(t1, k) == lookup(d1, k));
                assert(lookup(t2, k) == lookup(d2, k));
            }
        }
        lemma_table_ext(d1, d2);
        assert forall|i: int| 0 <= i < t1.len() implies t1[i] == t2[i] by {
            if i > 0 {
                assert(t1[i] == d1[i - 1]);
                assert(t2[i] == d2[i - 1]);
            }
        }
        assert(t1 =~= t2);
    }
}


/// Pushing keeps what a sequence holds, and adds the new element.
pub proof fn lemma_push_contains<A>(s: Seq<A>, e: A)
    ensures
        forall|x: A| s.contains(x) ==> #[trigger] s.push(e).contains(x),
        s.push(e).contains(e),
        forall|x: A| #[trigger] s.push(e).contains(x) ==> s.contains(x) || x == e,
{
    assert(s.push(e)[s.len() as int] == e);
    assert forall|x: A| s.contains(x) implies #[trigger] s.push(e).contains(x) by {
        let i = choose|i: int| 0 <= i < s.len() && s[i] == x;
        assert(s.push(e)[i] == x);
    }
    assert forall|x: A| #[trigger] s.push(e).contains(x) implies s.contains(x) || x == e by {
        let i = choose|i: int| 0 <= i < s.push(e).len() && s.push(e)[i] == x;
        if i < s.len() {
            assert(s[i] == x);
        }
    }
}

} // verus!
