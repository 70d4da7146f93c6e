//! Dictionaries keyed by strings, kept as vectors of entries in the order in
//! which their keys first arrived. Each key has at most one entry.
use vstd::prelude::*;

verus! {

/// Index of the entry of key `k`.
pub open spec fn key_pos<V>(g: Seq<(Seq<char>, V)>, k: Seq<char>) -> Option<int>
    decreases g.len(),
{
    if g.len() == 0 {
        None
    } else {
        match key_pos(g.drop_last(), k) {
            Some(i) => Some(i),
            None => if g.last().0 == k {
                Some(g.len() - 1)
            } else {
                None
            },
        }
    }
}

/// No key has two entries.
pub open spec fn keys_unique<V>(g: Seq<(Seq<char>, V)>) -> bool {
    forall|i: int, j: int| 0 <= i < j < g.len() ==> #[trigger] g[i].0 != #[trigger] g[j].0
}

/// The value of key `k`.
pub open spec fn lookup<V>(g: Seq<(Seq<char>, V)>, k: Seq<char>) -> Option<V> {
    match key_pos(g, k) {
        Some(i) => Some(g[i].1),
        None => None,
    }
}

pub proof fn lemma_key_pos<V>(g: Seq<(Seq<char>, V)>, k: Seq<char>)
    ensures
        key_pos(g, k) matches Some(i) ==> 0 <= i < g.len() && g[i].0 == k && forall|j: int|
            0 <= j < i ==> #[trigger] g[j].0 != k,
        key_pos(g, k) is None ==> forall|j: int| 0 <= j < g.len() ==> #[trigger] g[j].0 != k,
    decreases g.len(),
{
    if g.len() > 0 {
        lemma_key_pos(g.drop_last(), k);
        assert forall|j: int| 0 <= j < g.len() - 1 implies #[trigger] g[j] == g.drop_last()[j] by {}
    }
}

pub proof fn lemma_key_pos_at<V>(g: Seq<(Seq<char>, V)>, k: Seq<char>, i: int)
    requires
        0 <= i < g.len(),
        g[i].0 == k,
        forall|j: int| 0 <= j < i ==> #[trigger] g[j].0 != k,
    ensures
        key_pos(g, k) == Some(i),
{
    lemma_key_pos(g, k);
}

pub proof fn lemma_key_pos_none<V>(g: Seq<(Seq<char>, V)>, k: Seq<char>)
    requires
        forall|j: int| 0 <= j < g.len() ==> #[trigger] g[j].0 != k,
    ensures
        key_pos(g, k) is None,
{
    lemma_key_pos(g, k);
}

/// Adds `v` to the values of key `k`; a new key comes last.
pub open spec fn group_add<V>(g: Seq<(Seq<char>, Seq<V>)>, k: Seq<char>, v: V) -> Seq<
    (Seq<char>, Seq<V>),
> {
    match key_pos(g, k) {
        Some(i) => g.update(i, (k, g[i].1.push(v))),
        None => g.push((k, seq![v])),
    }
}

/// Adds `v` to the values of key `k` unless they hold it already; a new key comes last.
pub open spec fn group_add_new<V>(g: Seq<(Seq<char>, Seq<V>)>, k: Seq<char>, v: V) -> Seq<
    (Seq<char>, Seq<V>),
> {
    match key_pos(g, k) {
        Some(i) => if g[i].1.contains(v) {
            g
        } else {
            g.update(i, (k, g[i].1.push(v)))
        },
        None => g.push((k, seq![v])),
    }
}

/// The groups of the keys of `pairs`, each with its values in order.
pub open spec fn group_all<V>(pairs: Seq<(Seq<char>, V)>) -> Seq<(Seq<char>, Seq<V>)>
    decreases pairs.len(),
{
    if pairs.len() == 0 {
        seq![]
    } else {
        group_add(group_all(pairs.drop_last()), pairs.last().0, pairs.last().1)
    }
}

/// The groups of the keys of `pairs`, each with its distinct values in order.
pub open spec fn group_all_new<V>(pairs: Seq<(Seq<char>, V)>) -> Seq<(Seq<char>, Seq<V>)>
    decreases pairs.len(),
{
    if pairs.len() == 0 {
        seq![]
    } else {
        group_add_new(group_all_new(pairs.drop_last()), pairs.last().0, pairs.last().1)
    }
}

pub open spec fn gview<V: View>(g: Seq<(String, Vec<V>)>) -> Seq<(Seq<char>, Seq<V::V>)> {
    g.map_values(|e: (String, Vec<V>)| (e.0@, e.1@.map_values(|x: V| x@)))
}

pub open spec fn kview<V>(g: Seq<(String, V)>) -> Seq<(Seq<char>, V)> {
    g.map_values(|e: (String, V)| (e.0@, e.1))
}

/// Index of the entry of key `k`.
pub fn find_key<V>(g: &Vec<(String, V)>, k: &String) -> (r: Option<usize>)
    ensures
        match r {
            Some(i) => key_pos(kview(g@), k@) == Some(i as int),
            None => key_pos(kview(g@), k@) is None,
        },
{
    let mut i: usize = 0;
    while i < g.len()
        invariant
            i <= g.len(),
            forall|j: int| 0 <= j < i ==> #[trigger] g@[j].0@ != k@,
        decreases g.len() - i,
    {
        if g[i].0 == *k {
            proof {
                assert forall|j: int| 0 <= j < i implies #[trigger] kview(g@)[j].0 != k@ by {
                    assert(kview(g@)[j].0 == g@[j].0@);
                }
                lemma_key_pos_at(kview(g@), k@, i as int);
            }
            return Some(i);
        }
        i = i + 1;
    }
    proof {
        assert forall|j: int| 0 <= j < g.len() implies #[trigger] kview(g@)[j].0 != k@ by {
            assert(kview(g@)[j].0 == g@[j].0@);
        }
        lemma_key_pos_none(kview(g@), k@);
    }
    None
}

proof fn lemma_kview_gview<V: View>(g: Seq<(String, Vec<V>)>, k: Seq<char>)
    ensures
        key_pos(kview(g), k) == key_pos(gview(g), k),
{
    lemma_key_pos(kview(g), k);
    lemma_key_pos(gview(g), k);
    match key_pos(kview(g), k) {
        Some(i) => {
            assert(gview(g)[i].0 == kview(g)[i].0);
            assert forall|j: int| 0 <= j < i implies #[trigger] gview(g)[j].0 != k by {
                assert(gview(g)[j].0 == kview(g)[j].0);
            }
            lemma_key_pos_at(gview(g), k, i);
        },
        None => {
            assert forall|j: int| 0 <= j < g.len() implies #[trigger] gview(g)[j].0 != k by {
                assert(gview(g)[j].0 == kview(g)[j].0);
            }
            lemma_key_pos_none(gview(g), k);
        },
    }
}

/// Adds `v` to the values of key `k`.
pub fn group_insert<V: View>(g: &mut Vec<(String, Vec<V>)>, k: String, v: V)
    ensures
        gview(final(g)@) == group_add(gview(old(g)@), k@, v@),
{
    proof {
        lemma_kview_gview(old(g)@, k@);
    }
    match find_key(g, &k) {
        Some(i) => {
            proof {
                lemma_key_pos(kview(g@), k@);
            }
            let ghost g0 = gview(g@);
            let (key, mut vals) = g.remove(i);
            let ghost vs0 = vals@;
            vals.push(v);
            g.insert(i, (key, vals));
            proof {
                assert(g0[i as int].1 == vs0.map_values(|x: V| x@));
                assert(vals@.map_values(|x: V| x@) =~= vs0.map_values(|x: V| x@).push(v@));
                assert(gview(g@) =~= g0.update(i as int, (k@, g0[i as int].1.push(v@))));
            }
        },
        None => {
            let ghost g0 = gview(g@);
            let mut vals: Vec<V> = Vec::new();
            vals.push(v);
            g.push((k, vals));
            proof {
                assert(vals@.map_values(|x: V| x@) =~= seq![v@]);
                assert(gview(g@) =~= g0.push((k@, seq![v@])));
            }
        },
    }
}

/// Adds `v` to the values of key `k` unless they hold it already.
pub fn group_insert_new(g: &mut Vec<(String, Vec<String>)>, k: String, v: String)
    ensures
        gview(final(g)@) == group_add_new(gview(old(g)@), k@, v@),
{
    proof {
        lemma_kview_gview(old(g)@, k@);
    }
    match find_key(g, &k) {
        Some(i) => {
            proof {
                lemma_key_pos(kview(g@), k@);
            }
            let ghost g0 = gview(g@);
            let (key, mut vals) = g.remove(i);
            let ghost vs0 = vals@;
            assert(g0[i as int].1 == vs0.map_values(|x: String| x@));
            let mut found = false;
            let mut m: usize = 0;
            while m < vals.len()
                invariant
                    m <= vals.len(),
                    vals@ == vs0,
                    found == exists|q: int| 0 <= q < m && #[trigger] vals@[q]@ == v@,
                decreases vals.len() - m,
            {
                if vals[m] == v {
                    found = true;
                }
                m = m + 1;
            }
            proof {
                let mv = vs0.map_values(|x: String| x@);
                if found {
                    let q = choose|q: int| 0 <= q < m && #[trigger] vals@[q]@ == v@;
                    assert(mv[q] == v@);
                } else {
                    assert forall|q: int| 0 <= q < mv.len() implies mv[q] != v@ by {
                        assert(vals@[q]@ != v@);
                    }
                }
            }
            if !found {
                vals.push(v);
                assert(vals@.map_values(|x: String| x@) =~= vs0.map_values(|x: String| x@).push(
                    v@,
                ));
            }
            g.insert(i, (key, vals));
            proof {
                if found {
                    assert(gview(g@) =~= g0);
                } else {
                    assert(gview(g@) =~= g0.update(i as int, (k@, g0[i as int].1.push(v@))));
                }
            }
        },
        None => {
            let ghost g0 = gview(g@);
            let mut vals: Vec<String> = Vec::new();
            vals.push(v);
            g.push((k, vals));
            proof {
                assert(vals@.map_values(|x: String| x@) =~= seq![v@]);
                assert(gview(g@) =~= g0.push((k@, seq![v@])));
            }
        },
    }
}


/// Sets the value of key `k` to `v`: an existing key keeps its place, a new key comes last.
pub open spec fn put<V>(g: Seq<(Seq<char>, V)>, k: Seq<char>, v: V) -> Seq<(Seq<char>, V)> {
    match key_pos(g, k) {
        Some(i) => g.update(i, (k, v)),
        None => g.push((k, v)),
    }
}

/// The dictionary of `pairs`: a later pair of a key replaces the value of an earlier one.
pub open spec fn put_all<V>(pairs: Seq<(Seq<char>, V)>) -> Seq<(Seq<char>, V)>
    decreases pairs.len(),
{
    if pairs.len() == 0 {
        seq![]
    } else {
        put(put_all(pairs.drop_last()), pairs.last().0, pairs.last().1)
    }
}

pub open spec fn vview<V: View>(g: Seq<(String, V)>) -> Seq<(Seq<char>, V::V)> {
    g.map_values(|e: (String, V)| (e.0@, e.1@))
}

/// Two dictionaries with the same key at each index find a key at the same index.
pub proof fn lemma_same_keys<A, B>(a: Seq<(Seq<char>, A)>, b: Seq<(Seq<char>, B)>, k: Seq<char>)
    requires
        a.len() == b.len(),
        forall|i: int| 0 <= i < a.len() ==> #[trigger] a[i].0 == b[i].0,
    ensures
        key_pos(a, k) == key_pos(b, k),
{
    lemma_key_pos(a, k);
    lemma_key_pos(b, k);
    match key_pos(a, k) {
        Some(i) => {
            assert forall|j: int| 0 <= j < i implies #[trigger] b[j].0 != k by {
                assert(a[j].0 == b[j].0);
            }
            lemma_key_pos_at(b, k, i);
        },
        None => {
            assert forall|j: int| 0 <= j < b.len() implies #[trigger] b[j].0 != k by {
                assert(a[j].0 == b[j].0);
            }
            lemma_key_pos_none(b, k);
        },
    }
}

/// A dictionary built by `put` has each key once.
pub proof fn lemma_put_unique<V>(g: Seq<(Seq<char>, V)>, k: Seq<char>, v: V)
    requires
        keys_unique(g),
    ensures
        keys_unique(put(g, k, v)),
        lookup(put(g, k, v), k) == Some(v),
        forall|q: Seq<char>| q != k ==> #[trigger] lookup(put(g, k, v), q) == lookup(g, q),
{
    lemma_key_pos(g, k);
    let r = put(g, k, v);
    assert forall|i: int, j: int| 0 <= i < j < r.len() implies #[trigger] r[i].0 != #[trigger] r[j].0 by {
        if j < g.len() {
            assert(r[i].0 == g[i].0 && r[j].0 == g[j].0);
        }
    }
    match key_pos(g, k) {
        Some(i) => {
            assert forall|j: int| 0 <= j < i implies #[trigger] r[j].0 != k by {
                assert(r[j].0 == g[j].0);
            }
            lemma_key_pos_at(r, k, i);
        },
        None => {
            assert forall|j: int| 0 <= j < g.len() implies #[trigger] r[j].0 != k by {
                assert(r[j].0 == g[j].0);
            }
            lemma_key_pos_at(r, k, g.len() as int);
        },
    }
    assert forall|q: Seq<char>| q != k implies #[trigger] lookup(put(g, k, v), q) == lookup(g, q) by {
        lemma_key_pos(g, q);
        lemma_key_pos(r, q);
        match key_pos(g, q) {
            Some(i) => {
                assert(r[i].0 == q);
                lemma_key_pos_at(r, q, i);
            },
            None => {
                assert forall|j: int| 0 <= j < r.len() implies #[trigger] r[j].0 != q by {
                    if j < g.len() {
                        assert(r[j].0 == g[j].0);
                    }
                }
                lemma_key_pos_none(r, q);
            },
        }
    }
}

/// The dictionary of pairs has each key once.
pub proof fn lemma_put_all_unique<V>(pairs: Seq<(Seq<char>, V)>)
    ensures
        keys_unique(put_all(pairs)),
    decreases pairs.len(),
{
    if pairs.len() > 0 {
        lemma_put_all_unique(pairs.drop_last());
        lemma_put_unique(put_all(pairs.drop_last()), pairs.last().0, pairs.last().1);
    }
}

/// Sets the value of key `k` to `v`.
pub fn put_entry<V: View>(g: &mut Vec<(String, V)>, k: String, v: V)
    ensures
        vview(final(g)@) == put(vview(old(g)@), k@, v@),
{
    proof {
        lemma_same_keys(kview(old(g)@), vview(old(g)@), k@);
    }
    let ghost g0 = vview(g@);
    match find_key(g, &k) {
        Some(i) => {
            proof {
                lemma_key_pos(kview(g@), k@);
            }
            let _ = g.remove(i);
            g.insert(i, (k, v));
            assert(vview(g@) =~= g0.update(i as int, (k@, v@)));
        },
        None => {
            g.push((k, v));
            assert(vview(g@) =~= g0.push((k@, v@)));
        },
    }
}


/// Sets the values of key `k` to `v`.
pub fn put_group<V: View>(g: &mut Vec<(String, Vec<V>)>, k: String, v: Vec<V>)
    ensures
        gview(final(g)@) == put(gview(old(g)@), k@, v@.map_values(|x: V| x@)),
{
    proof {
        lemma_kview_gview(old(g)@, k@);
    }
    let ghost g0 = gview(g@);
    let ghost vv = v@.map_values(|x: V| x@);
    match find_key(g, &k) {
        Some(i) => {
            proof {
                lemma_key_pos(kview(g@), k@);
            }
            let _ = g.remove(i);
            g.insert(i, (k, v));
            assert(gview(g@) =~= g0.update(i as int, (k@, vv)));
        },
        None => {
            g.push((k, v));
            assert(gview(g@) =~= g0.push((k@, vv)));
        },
    }
}


/// No entry's values hold a repeat.
pub open spec fn values_distinct<V>(g: Seq<(Seq<char>, Seq<V>)>) -> bool {
    forall|i: int, a: int, b: int|
        0 <= i < g.len() && 0 <= a < b < g[i].1.len() ==> #[trigger] g[i].1[a] != #[trigger] g[i].1[b]
}

proof fn lemma_group_add_new<V>(g: Seq<(Seq<char>, Seq<V>)>, k: Seq<char>, v: V)
    requires
        keys_unique(g),
        values_distinct(g),
    ensures
        keys_unique(group_add_new(g, k, v)),
        values_distinct(group_add_new(g, k, v)),
        lookup(group_add_new(g, k, v), k) matches Some(vs) && vs.contains(v),
        lookup(g, k) matches Some(vs) ==> lookup(group_add_new(g, k, v), k) matches Some(ws) && (
        forall|x: V| ws.contains(x) <==> vs.contains(x) || x == v),
        lookup(g, k) is None ==> lookup(group_add_new(g, k, v), k) == Some(seq![v]),
        forall|q: Seq<char>| q != k ==> #[trigger] lookup(group_add_new(g, k, v), q) == lookup(g, q),
{
    lemma_key_pos(g, k);
    let r = group_add_new(g, k, v);
    match key_pos(g, k) {
        Some(i) => {
            assert forall|j: int| 0 <= j < i implies #[trigger] r[j].0 != k by {
                assert(r[j].0 == g[j].0);
            }
            lemma_key_pos_at(r, k, i);
            if !g[i].1.contains(v) {
                let ws = g[i].1.push(v);
                assert(ws[ws.len() - 1] == v);
                assert forall|x: V| ws.contains(x) <==> g[i].1.contains(x) || x == v by {
                    if ws.contains(x) {
                        let p = choose|p: int| 0 <= p < ws.len() && ws[p] == x;
                        if p < g[i].1.len() {
                            assert(g[i].1[p] == x);
                        }
                    }
                    if g[i].1.contains(x) {
                        let p = choose|p: int| 0 <= p < g[i].1.len() && g[i].1[p] == x;
                        assert(ws[p] == x);
                    }
                }
            }
        },
        None => {
            assert forall|j: int| 0 <= j < g.len() implies #[trigger] r[j].0 != k by {
                assert(r[j].0 == g[j].0);
            }
            lemma_key_pos_at(r, k, g.len() as int);
            assert(r[g.len() as int].1 == seq![v]);
            assert(seq![v][0] == v);
        },
    }
    assert forall|i: int, j: int| 0 <= i < j < r.len() implies #[trigger] r[i].0 != #[trigger] r[j].0 by {
        if j < g.len() {
            assert(r[i].0 == g[i].0 && r[j].0 == g[j].0);
        }
    }
    assert forall|i: int, a: int, b: int|
        0 <= i < r.len() && 0 <= a < b < r[i].1.len() implies #[trigger] r[i].1[a]
            != #[trigger] r[i].1[b] by {
        if i < g.len() && r[i] != g[i] {
            if b == r[i].1.len() - 1 {
                assert(r[i].1[b] == v);
                assert(g[i].1[a] == r[i].1[a]);
                assert(!g[i].1.contains(v));
            } else {
                assert(g[i].1[a] == r[i].1[a] && g[i].1[b] == r[i].1[b]);
            }
        } else if i < g.len() {
            assert(r[i] == g[i]);
        }
    }
    assert forall|q: Seq<char>| q != k implies #[trigger] lookup(group_add_new(g, k, v), q) == lookup(g, q) by {
        lemma_key_pos(g, q);
        lemma_key_pos(r, q);
        match key_pos(g, q) {
            Some(i) => {
                assert(r[i].0 == q);
                assert forall|j: int| 0 <= j < i implies #[trigger] r[j].0 != q by {
                    assert(r[j].0 == g[j].0);
                }
                lemma_key_pos_at(r, q, i);
                assert(r[i] == g[i]);
            },
            None => {
                assert forall|j: int| 0 <= j < r.len() implies #[trigger] r[j].0 != q by {
                    if j < g.len() {
                        assert(r[j].0 == g[j].0);
                    }
                }
                lemma_key_pos_none(r, q);
            },
        }
    }
}

/// Grouping pairs with repeats dropped gives each key one entry and each
/// entry values without repeats, and a value stands under a key exactly when
/// some pair pairs them.
pub proof fn lemma_group_all_new<V>(pairs: Seq<(Seq<char>, V)>)
    ensures
        keys_unique(group_all_new(pairs)),
        values_distinct(group_all_new(pairs)),
        forall|k: Seq<char>, v: V|
            #[trigger] pairs.contains((k, v)) <==> (lookup(group_all_new(pairs), k) matches Some(vs)
                && vs.contains(v)),
    decreases pairs.len(),
{
    if pairs.len() > 0 {
        let a = pairs.drop_last();
        let (k0, v0) = pairs.last();
        lemma_group_all_new(a);
        let g = group_all_new(a);
        lemma_group_add_new(g, k0, v0);
        let r = group_all_new(pairs);
        assert forall|k: Seq<char>, v: V| #[trigger] pairs.contains((k, v)) <==> (lookup(r, k) matches Some(
            vs,
        ) && vs.contains(v)) by {
            assert(pairs.contains((k, v)) <==> a.contains((k, v)) || (k, v) == (k0, v0)) by {
                if pairs.contains((k, v)) {
                    let p = choose|p: int| 0 <= p < pairs.len() && pairs[p] == (k, v);
                    if p < a.len() {
                        assert(a[p] == (k, v));
                    }
                }
                if a.contains((k, v)) {
                    let p = choose|p: int| 0 <= p < a.len() && a[p] == (k, v);
                    assert(a[p] == pairs[p]);
                }
                if (k, v) == (k0, v0) {
                    assert(pairs[pairs.len() - 1] == (k, v));
                }
            }
            if k != k0 {
                assert(lookup(r, k) == lookup(g, k));
            } else {
                match lookup(g, k0) {
                    Some(vs) => {},
                    None => {
                        assert(!a.contains((k, v)));
                        if v != v0 {
                            assert(!seq![v0].contains(v)) by {
                                if seq![v0].contains(v) {
                                    let p = choose|p: int| 0 <= p < 1 && seq![v0][p] == v;
                                }
                            }
                        } else {
                            assert(seq![v0][0] == v);
                        }
                    },
                }
            }
        }
    } else {
        assert forall|k: Seq<char>, v: V| #[trigger] pairs.contains((k, v)) <==> (lookup(
            group_all_new(pairs),
            k,
        ) matches Some(vs) && vs.contains(v)) by {
            lemma_key_pos(group_all_new(pairs), k);
        }
    }
}

} // verus!
