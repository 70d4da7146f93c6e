//! Ordering of spellings, and dictionary helpers: flipping, merging and grouping.
use crate::dict::{self, find_key, group_insert, put_entry};
use crate::text::{self, chars_of};
use core::cmp::Ordering;
use num_bigint::BigUint;
use vstd::prelude::*;

verus! {

/// Lexicographic order of character sequences by code point (the order of
/// `String`, whose UTF-8 bytes compare in the same way).
pub open spec fn lex_lt(a: Seq<char>, b: Seq<char>) -> bool
    decreases a.len(),
{
    if a.len() == 0 {
        b.len() > 0
    } else if b.len() == 0 {
        false
    } else if a[0] != b[0] {
        a[0] < b[0]
    } else {
        lex_lt(a.skip(1), b.skip(1))
    }
}

/// Shorter spellings first, and spellings of equal length lexicographically.
pub open spec fn len_lex_lt(a: Seq<char>, b: Seq<char>) -> bool {
    a.len() < b.len() || (a.len() == b.len() && lex_lt(a, b))
}

/// The order of spellings by character count, then lexicographically.
pub open spec fn by_len_order(a: Seq<char>, b: Seq<char>) -> Ordering {
    if a == b {
        Ordering::Equal
    } else if len_lex_lt(a, b) {
        Ordering::Less
    } else {
        Ordering::Greater
    }
}

proof fn lemma_lex_step(a: Seq<char>, b: Seq<char>, i: int)
    requires
        0 <= i < a.len(),
        i < b.len(),
        a[i] == b[i],
    ensures
        lex_lt(a.skip(i), b.skip(i)) == lex_lt(a.skip(i + 1), b.skip(i + 1)),
{
    assert(a.skip(i).skip(1) =~= a.skip(i + 1));
    assert(b.skip(i).skip(1) =~= b.skip(i + 1));
}

/// Whether `a` comes before `b` lexicographically.
pub fn lex_less(a: &Vec<char>, b: &Vec<char>) -> (r: bool)
    ensures
        r == lex_lt(a@, b@),
{
    let mut i: usize = 0;
    assert(a@.skip(0) =~= a@);
    assert(b@.skip(0) =~= b@);
    while i < a.len() && i < b.len() && a[i] == b[i]
        invariant
            i <= a.len(),
            i <= b.len(),
            lex_lt(a@, b@) == lex_lt(a@.skip(i as int), b@.skip(i as int)),
        decreases a.len() - i,
    {
        proof {
            lemma_lex_step(a@, b@, i as int);
        }
        i = i + 1;
    }
    if i == a.len() {
        i < b.len()
    } else if i == b.len() {
        false
    } else {
        a[i] < b[i]
    }
}

/// Orders spellings by character count, then lexicographically.
pub fn cmp_by_len_default(s: &String, d: &String) -> (r: Ordering)
    requires
        s@.len() <= i32::MAX,
        d@.len() <= i32::MAX,
    ensures
        r == by_len_order(s@, d@),
{
    let a = chars_of(s.as_str());
    let b = chars_of(d.as_str());
    if a.len() < b.len() {
        Ordering::Less
    } else if a.len() > b.len() {
        Ordering::Greater
    } else if *s == *d {
        Ordering::Equal
    } else if lex_less(&a, &b) {
        Ordering::Less
    } else {
        Ordering::Greater
    }
}


/// Each value of each entry paired with the entry's key.
pub open spec fn flat_pairs(h: Seq<(Seq<char>, Seq<Seq<char>>)>) -> Seq<(Seq<char>, Seq<char>)>
    decreases h.len(),
{
    if h.len() == 0 {
        seq![]
    } else {
        flat_pairs(h.drop_last()) + h.last().1.map_values(|i: Seq<char>| (i, h.last().0))
    }
}

/// The dictionary that maps each value of `h` to its key; a later key of a
/// value replaces an earlier one.
pub fn hashmap_flip_flatten(h: Vec<(String, Vec<String>)>) -> (r: Vec<(String, String)>)
    ensures
        dict::vview(r@) == dict::put_all(flat_pairs(dict::gview(h@))),
{
    let ghost hv = dict::gview(h@);
    let mut base: Vec<(String, String)> = Vec::new();
    let mut i: usize = 0;
    while i < h.len()
        invariant
            i <= h.len(),
            hv == dict::gview(h@),
            dict::vview(base@) == dict::put_all(flat_pairs(hv.take(i as int))),
        decreases h.len() - i,
    {
        proof {
            assert(hv.take(i + 1).drop_last() =~= hv.take(i as int));
        }
        let ghost prefix = flat_pairs(hv.take(i as int));
        let k = &h[i].0;
        let vs = &h[i].1;
        let ghost kv = hv[i as int].0;
        let ghost vv = hv[i as int].1;
        assert(vv == text::strs(vs@));
        let mut j: usize = 0;
        while j < vs.len()
            invariant
                j <= vs.len(),
                vv == text::strs(vs@),
                kv == k@,
                dict::vview(base@) == dict::put_all(
                    prefix + vv.take(j as int).map_values(|x: Seq<char>| (x, kv)),
                ),
            decreases vs.len() - j,
        {
            proof {
                let f = |x: Seq<char>| (x, kv);
                let a = prefix + vv.take(j + 1).map_values(f);
                assert(a.drop_last() =~= prefix + vv.take(j as int).map_values(f));
                assert(a.last() == (vs@[j as int]@, kv));
            }
            put_entry(&mut base, vs[j].clone(), k.clone());
            j = j + 1;
        }
        proof {
            assert(vv.take(vs.len() as int) =~= vv);
        }
        i = i + 1;
    }
    assert(hv.take(h.len() as int) =~= hv);
    base
}

/// Merges entry `(k, v)`: the values of an existing key are extended by `v`,
/// a new key comes last.
pub open spec fn union_step(g: Seq<(Seq<char>, Seq<Seq<char>>)>, k: Seq<char>, v: Seq<Seq<char>>) -> Seq<
    (Seq<char>, Seq<Seq<char>>),
> {
    match dict::key_pos(g, k) {
        Some(i) => g.update(i, (k, g[i].1 + v)),
        None => g.push((k, v)),
    }
}

/// Merges the entries of `d` into `g` in order.
pub open spec fn union_all(g: Seq<(Seq<char>, Seq<Seq<char>>)>, d: Seq<(Seq<char>, Seq<Seq<char>>)>) -> Seq<
    (Seq<char>, Seq<Seq<char>>),
>
    decreases d.len(),
{
    if d.len() == 0 {
        g
    } else {
        union_step(union_all(g, d.drop_last()), d.last().0, d.last().1)
    }
}

fn union_insert(s: &mut Vec<(String, Vec<String>)>, k: String, v: Vec<String>)
    ensures
        dict::gview(final(s)@) == union_step(dict::gview(old(s)@), k@, text::strs(v@)),
{
    proof {
        assert forall|j: int| 0 <= j < s@.len() implies #[trigger] dict::kview(s@)[j].0
            == dict::gview(s@)[j].0 by {}
        dict::lemma_same_keys(dict::kview(s@), dict::gview(s@), k@);
    }
    let ghost g0 = dict::gview(s@);
    assert(dict::gview(s@) =~= g0);
    match find_key(s, &k) {
        Some(i) => {
            proof {
                dict::lemma_key_pos(dict::kview(s@), k@);
            }
            let (key, mut vals) = s.remove(i);
            let ghost vs0 = text::strs(vals@);
            assert(vs0 == g0[i as int].1) by {
                assert(text::strs(vals@) =~= vals@.map_values(|x: String| x@));
            }
            let mut j: usize = 0;
            while j < v.len()
                invariant
                    j <= v.len(),
                    text::strs(vals@) == vs0 + text::strs(v@).take(j as int),
                decreases v.len() - j,
            {
                let ghost b = text::strs(vals@);
                vals.push(v[j].clone());
                assert(text::strs(vals@) =~= b.push(v@[j as int]@));
                j = j + 1;
                assert(text::strs(v@).take(j as int) =~= text::strs(v@).take(j - 1).push(
                    v@[j - 1]@,
                ));
            }
            assert(text::strs(v@).take(v.len() as int) =~= text::strs(v@));
            s.insert(i, (key, vals));
            proof {
                assert(vals@.map_values(|x: String| x@) =~= text::strs(vals@));
                assert(dict::gview(s@) =~= g0.update(i as int, (k@, g0[i as int].1 + text::strs(v@))));
            }
        },
        None => {
            let ghost vv = text::strs(v@);
            s.push((k, v));
            proof {
                assert(v@.map_values(|x: String| x@) =~= vv);
                assert(dict::gview(s@) =~= g0.push((k@, vv)));
            }
        },
    }
}

/// Merges the entries of `d` into `s`: the values of a key already there are
/// extended, a new key comes last.
pub fn union_hashmap(s: &mut Vec<(String, Vec<String>)>, d: Vec<(String, Vec<String>)>)
    ensures
        dict::gview(final(s)@) == union_all(dict::gview(old(s)@), dict::gview(d@)),
{
    let ghost dv = dict::gview(d@);
    let ghost s0 = dict::gview(s@);
    let mut d = d;
    let ghost d0 = d@;
    while d.len() > 0
        invariant
            d.len() <= d0.len(),
            dv == dict::gview(d0),
            d@ == d0.skip(d0.len() - d.len()),
            dict::gview(s@) == union_all(s0, dv.take(d0.len() - d.len())),
        decreases d.len(),
    {
        let ghost k = d0.len() - d.len();
        let ghost dd = d@;
        let (key, vals) = d.remove(0);
        proof {
            assert(dd[0] == d0[k]);
            assert(d@ =~= d0.skip(k + 1));
            assert(dv.take(k + 1).drop_last() =~= dv.take(k));
            assert(dv[k] == (key@, text::strs(vals@))) by {
                assert(vals@.map_values(|x: String| x@) =~= text::strs(vals@));
            }
        }
        union_insert(s, key, vals);
    }
    assert(dv.take(d0.len() as int) =~= dv);
}

/// Merges the dictionaries into `base`, one after the other.
pub open spec fn unions_all(g: Seq<(Seq<char>, Seq<Seq<char>>)>, hs: Seq<Seq<(Seq<char>, Seq<Seq<char>>)>>) -> Seq<
    (Seq<char>, Seq<Seq<char>>),
>
    decreases hs.len(),
{
    if hs.len() == 0 {
        g
    } else {
        union_all(unions_all(g, hs.drop_last()), hs.last())
    }
}

/// Merges each dictionary of `hs` into `base` in turn.
pub fn unions_hashmap(base: &mut Vec<(String, Vec<String>)>, hs: Vec<Vec<(String, Vec<String>)>>)
    ensures
        dict::gview(final(base)@) == unions_all(
            dict::gview(old(base)@),
            hs@.map_values(|h: Vec<(String, Vec<String>)>| dict::gview(h@)),
        ),
{
    let ghost hv = hs@.map_values(|h: Vec<(String, Vec<String>)>| dict::gview(h@));
    let ghost b0 = dict::gview(base@);
    let mut hs = hs;
    let ghost h0 = hs@;
    while hs.len() > 0
        invariant
            hs.len() <= h0.len(),
            hv == h0.map_values(|h: Vec<(String, Vec<String>)>| dict::gview(h@)),
            hs@ == h0.skip(h0.len() - hs.len()),
            dict::gview(base@) == unions_all(b0, hv.take(h0.len() - hs.len())),
        decreases hs.len(),
    {
        let ghost k = h0.len() - hs.len();
        let ghost hh = hs@;
        let h = hs.remove(0);
        proof {
            assert(hh[0] == h0[k]);
            assert(hs@ =~= h0.skip(k + 1));
            assert(hv.take(k + 1).drop_last() =~= hv.take(k));
        }
        union_hashmap(base, h);
    }
    assert(hv.take(h0.len() as int) =~= hv);
}

/// Groups the values by key, each group in the order of the values, the keys
/// in order of first appearance.
#[allow(non_snake_case)]
pub fn groupBy_run(i: &Vec<(String, String)>) -> (r: Vec<(String, Vec<String>)>)
    ensures
        dict::gview(r@) == dict::group_all(dict::vview(i@)),
{
    let ghost iv = dict::vview(i@);
    let mut h: Vec<(String, Vec<String>)> = Vec::new();
    let mut k: usize = 0;
    while k < i.len()
        invariant
            k <= i.len(),
            iv == dict::vview(i@),
            dict::gview(h@) == dict::group_all(iv.take(k as int)),
        decreases i.len() - k,
    {
        proof {
            assert(iv.take(k + 1).drop_last() =~= iv.take(k as int));
        }
        group_insert(&mut h, i[k].0.clone(), i[k].1.clone());
        k = k + 1;
    }
    assert(iv.take(i.len() as int) =~= iv);
    h
}

/// Adds `t` to the group of key `k`; a new key's group goes where its key
/// keeps the keys ascending.
pub open spec fn sg_insert<T>(g: Seq<(u64, Seq<T>)>, k: u64, t: T) -> Seq<(u64, Seq<T>)>
    decreases g.len(),
{
    if g.len() == 0 {
        seq![(k, seq![t])]
    } else if g[0].0 == k {
        seq![(k, g[0].1.push(t))] + g.skip(1)
    } else if k < g[0].0 {
        seq![(k, seq![t])] + g
    } else {
        seq![g[0]] + sg_insert(g.skip(1), k, t)
    }
}

/// The values grouped by key, the keys ascending, each group in the order of
/// its values.
pub open spec fn sort_group<T>(s: Seq<(u64, T)>) -> Seq<(u64, Seq<T>)>
    decreases s.len(),
{
    if s.len() == 0 {
        seq![]
    } else {
        sg_insert(sort_group(s.drop_last()), s.last().0, s.last().1)
    }
}

pub open spec fn keys_ascending<T>(g: Seq<(u64, Seq<T>)>) -> bool {
    forall|i: int, j: int| 0 <= i < j < g.len() ==> (#[trigger] g[i]).0 < (#[trigger] g[j]).0
}

pub open spec fn groups_view<T>(g: Seq<(u64, Vec<T>)>) -> Seq<(u64, Seq<T>)> {
    g.map_values(|e: (u64, Vec<T>)| (e.0, e.1@))
}

proof fn lemma_sg_insert_at<T>(g: Seq<(u64, Seq<T>)>, k: u64, t: T, p: int)
    requires
        0 <= p <= g.len(),
        forall|j: int| 0 <= j < p ==> (#[trigger] g[j]).0 < k,
        p < g.len() ==> k <= g[p].0,
    ensures
        sg_insert(g, k, t) == if p < g.len() && g[p].0 == k {
            g.update(p, (k, g[p].1.push(t)))
        } else {
            g.take(p) + seq![(k, seq![t])] + g.skip(p)
        },
    decreases g.len(),
{
    if g.len() == 0 {
        assert(g.take(p) + seq![(k, seq![t])] + g.skip(p) =~= seq![(k, seq![t])]);
    } else if p == 0 {
        if g[0].0 == k {
            assert(seq![(k, g[0].1.push(t))] + g.skip(1) =~= g.update(0, (k, g[0].1.push(t))));
        } else {
            assert(g.take(p) + seq![(k, seq![t])] + g.skip(p) =~= seq![(k, seq![t])] + g);
        }
    } else {
        let h = g.skip(1);
        assert forall|j: int| 0 <= j < p - 1 implies (#[trigger] h[j]).0 < k by {
            assert(h[j] == g[j + 1]);
        }
        lemma_sg_insert_at(h, k, t, p - 1);
        if p < g.len() && g[p].0 == k {
            assert(h[p - 1] == g[p]);
            assert(seq![g[0]] + h.update(p - 1, (k, h[p - 1].1.push(t))) =~= g.update(
                p,
                (k, g[p].1.push(t)),
            ));
        } else {
            assert(seq![g[0]] + (h.take(p - 1) + seq![(k, seq![t])] + h.skip(p - 1)) =~= g.take(p)
                + seq![(k, seq![t])] + g.skip(p));
        }
    }
}

/// Adding to ascending groups keeps the keys ascending.
proof fn lemma_sg_insert_ascending<T>(g: Seq<(u64, Seq<T>)>, k: u64, t: T)
    requires
        keys_ascending(g),
    ensures
        keys_ascending(sg_insert(g, k, t)),
        forall|i: int|
            0 <= i < sg_insert(g, k, t).len() ==> (#[trigger] sg_insert(g, k, t)[i]).0 == k || exists|
                j: int,
            | 0 <= j < g.len() && g[j].0 == sg_insert(g, k, t)[i].0,
    decreases g.len(),
{
    let r = sg_insert(g, k, t);
    if g.len() == 0 {
    } else if g[0].0 == k {
        assert forall|i: int, j: int| 0 <= i < j < r.len() implies (#[trigger] r[i]).0 < (
        #[trigger] r[j]).0 by {
            assert(r[i].0 == g[i].0 && r[j].0 == g[j].0);
        }
        assert forall|i: int| 0 <= i < r.len() implies (#[trigger] r[i]).0 == k || exists|j: int|
            0 <= j < g.len() && g[j].0 == r[i].0 by {
            assert(r[i].0 == g[i].0);
        }
    } else if k < g[0].0 {
        assert forall|i: int, j: int| 0 <= i < j < r.len() implies (#[trigger] r[i]).0 < (
        #[trigger] r[j]).0 by {
            if i > 0 {
                assert(r[i] == g[i - 1] && r[j] == g[j - 1]);
            } else {
                assert(r[j] == g[j - 1]);
                assert(g[0].0 <= g[j - 1].0);
            }
        }
        assert forall|i: int| 0 <= i < r.len() implies (#[trigger] r[i]).0 == k || exists|j: int|
            0 <= j < g.len() && g[j].0 == r[i].0 by {
            if i > 0 {
                assert(r[i] == g[i - 1]);
            }
        }
    } else {
        let h = g.skip(1);
        assert forall|i: int, j: int| 0 <= i < j < h.len() implies (#[trigger] h[i]).0 < (
        #[trigger] h[j]).0 by {
            assert(h[i] == g[i + 1] && h[j] == g[j + 1]);
        }
        lemma_sg_insert_ascending(h, k, t);
        let ih = sg_insert(h, k, t);
        assert(r == seq![g[0]] + ih);
        assert forall|q: int| 0 <= q < ih.len() implies g[0].0 < (#[trigger] ih[q]).0 by {
            if ih[q].0 != k {
                let j = choose|j: int| 0 <= j < h.len() && h[j].0 == ih[q].0;
                assert(h[j] == g[j + 1]);
            }
        }
        assert forall|i: int, j: int| 0 <= i < j < r.len() implies (#[trigger] r[i]).0 < (
        #[trigger] r[j]).0 by {
            if i == 0 {
                assert(r[j] == ih[j - 1]);
            } else {
                assert(r[i] == ih[i - 1] && r[j] == ih[j - 1]);
            }
        }
        assert forall|i: int| 0 <= i < r.len() implies (#[trigger] r[i]).0 == k || exists|j: int|
            0 <= j < g.len() && g[j].0 == r[i].0 by {
            if i == 0 {
                assert(g[0].0 == r[0].0);
            } else {
                assert(r[i] == ih[i - 1]);
                if ih[i - 1].0 != k {
                    let j = choose|j: int| 0 <= j < h.len() && h[j].0 == ih[i - 1].0;
                    assert(g[j + 1] == h[j]);
                }
            }
        }
    }
}

/// The groups of `sort_groupby` have their keys strictly ascending: each key once.
pub proof fn lemma_sort_group_ascending<T>(s: Seq<(u64, T)>)
    ensures
        keys_ascending(sort_group(s)),
    decreases s.len(),
{
    if s.len() > 0 {
        lemma_sort_group_ascending(s.drop_last());
        lemma_sg_insert_ascending(sort_group(s.drop_last()), s.last().0, s.last().1);
    }
}

/// Groups the values by key, the keys ascending, each group in the order of
/// its values.
pub fn sort_groupby<T>(it: Vec<(u64, T)>) -> (r: Vec<(u64, Vec<T>)>)
    ensures
        groups_view(r@) == sort_group(it@),
{
    let mut it = it;
    let ghost s0 = it@;
    let mut g: Vec<(u64, Vec<T>)> = Vec::new();
    proof {
        lemma_sort_group_ascending(s0.take(0));
    }
    while it.len() > 0
        invariant
            it.len() <= s0.len(),
            it@ == s0.skip(s0.len() - it.len()),
            groups_view(g@) == sort_group(s0.take(s0.len() - it.len())),
        decreases it.len(),
    {
        let ghost n = s0.len() - it.len();
        let ghost iv = it@;
        let (k, t) = it.remove(0);
        proof {
            assert(iv[0] == s0[n]);
            assert(it@ =~= s0.skip(n + 1));
            assert(s0.take(n + 1).drop_last() =~= s0.take(n));
            assert(s0.take(n + 1).last() == (k, t));
            lemma_sort_group_ascending(s0.take(n));
        }
        let ghost gv = groups_view(g@);
        let mut p: usize = 0;
        while p < g.len() && g[p].0 < k
            invariant
                p <= g.len(),
                gv == groups_view(g@),
                forall|j: int| 0 <= j < p ==> (#[trigger] gv[j]).0 < k,
            decreases g.len() - p,
        {
            p = p + 1;
        }
        proof {
            lemma_sg_insert_at(gv, k, t, p as int);
        }
        if p < g.len() && g[p].0 == k {
            let (key, mut vals) = g.remove(p);
            let ghost v0 = vals@;
            vals.push(t);
            g.insert(p, (key, vals));
            assert(groups_view(g@) =~= gv.update(p as int, (k, gv[p as int].1.push(t))));
        } else {
            let mut vals: Vec<T> = Vec::new();
            vals.push(t);
            g.insert(p, (k, vals));
            assert(vals@ =~= seq![t]);
            assert(groups_view(g@) =~= gv.take(p as int) + seq![(k, seq![t])] + gv.skip(p as int));
        }
    }
    assert(s0.take(s0.len() as int) =~= s0);
    g
}

/// The number of ways to choose `k` of `n` things, by the recursion
/// `C(n, 1) = n` and `C(n, k) = n * C(n - 1, k - 1) / k`.
pub open spec fn comb(n: nat, k: nat) -> nat
    decreases k,
{
    if k <= 1 || n == 0 {
        n
    } else {
        n * comb((n - 1) as nat, (k - 1) as nat) / k
    }
}

/// Every product of the recursion fits in `usize`.
pub open spec fn comb_fits(n: nat, k: nat) -> bool
    decreases k,
{
    k <= 1 || n == 0 || (n * comb((n - 1) as nat, (k - 1) as nat) <= usize::MAX && comb_fits(
        (n - 1) as nat,
        (k - 1) as nat,
    ))
}

/// The number of ways to choose `k` of `n` things; none when `k > n`.
pub fn combination_size(n: usize, k: usize) -> (r: usize)
    requires
        n < k || (k >= 1 && comb_fits(n as nat, k as nat)),
    ensures
        r == if n < k {
            0
        } else {
            comb(n as nat, k as nat)
        },
{
    if n < k {
        0
    } else {
        combination_size_inner(n, k)
    }
}

fn combination_size_inner(n: usize, k: usize) -> (r: usize)
    requires
        1 <= k <= n,
        comb_fits(n as nat, k as nat),
    ensures
        r == comb(n as nat, k as nat),
    decreases k,
{
    if k == 1 {
        n
    } else {
        let c = combination_size_inner(n - 1, k - 1);
        n * c / k
    }
}

/// The number that base-2^32 digits stand for, least significant digit first.
pub open spec fn digits_value(d: Seq<u32>) -> nat
    decreases d.len(),
{
    if d.len() == 0 {
        0
    } else {
        d[0] as nat + 0x1_0000_0000nat * digits_value(d.skip(1))
    }
}

/// `n (n - 1) ... (n - k + 1)`: the number of orders of `k` of `n` things.
pub open spec fn falling(n: nat, k: nat) -> nat
    decreases k,
{
    if k == 0 {
        1
    } else {
        falling((n - 1) as nat, (k - 1) as nat) * n
    }
}

/// Multiplies the number of base-2^32 digits `digits` by `n`, with
/// `num_bigint::BigUint::new`, the product of a `usize` and a `BigUint`, and
/// `BigUint::to_u32_digits`. Stated: the digits that come back stand for the
/// product.
#[verifier::external_body]
fn big_mul(digits: &Vec<u32>, n: usize) -> (r: Vec<u32>)
    ensures
        digits_value(r@) == digits_value(digits@) * n,
{
    (n * BigUint::new(digits.clone())).to_u32_digits()
}

/// The number of orders of `k` of `n` things, as base-2^32 digits, least
/// significant first; none when `k > n`.
pub fn permutation_size(n: usize, k: usize) -> (r: Vec<u32>)
    ensures
        digits_value(r@) == if n < k {
            0
        } else {
            falling(n as nat, k as nat)
        },
{
    if n < k {
        let z: Vec<u32> = Vec::new();
        assert(digits_value(z@) == 0);
        z
    } else {
        permutation_size_inner(0, n, k)
    }
}

fn permutation_size_inner(i: usize, n: usize, k: usize) -> (r: Vec<u32>)
    requires
        i <= k,
        k - i <= n,
    ensures
        digits_value(r@) == falling(n as nat, (k - i) as nat),
    decreases k - i,
{
    if i < k {
        let rest = permutation_size_inner(i + 1, n - 1, k);
        big_mul(&rest, n)
    } else {
        let mut one: Vec<u32> = Vec::new();
        one.push(1);
        assert(one@.skip(1) =~= Seq::<u32>::empty());
        assert(digits_value(one@.skip(1)) == 0);
        one
    }
}

/// Processes a set of permutation items separately; it yields no result.
pub fn process_permutation_separately(perm_set: Vec<char>) -> (r: Vec<(Vec<char>, usize)>)
    ensures
        r.len() == 0,
{
    Vec::new()
}


/// `x` placed before the first text that does not come before it.
pub open spec fn insert_text(s: Seq<Seq<char>>, x: Seq<char>) -> Seq<Seq<char>>
    decreases s.len(),
{
    if s.len() == 0 {
        seq![x]
    } else if !lex_lt(s[0], x) {
        seq![x] + s
    } else {
        seq![s[0]] + insert_text(s.skip(1), x)
    }
}

/// The texts in lexicographic order (an insertion sort).
pub open spec fn sort_texts(s: Seq<Seq<char>>) -> Seq<Seq<char>>
    decreases s.len(),
{
    if s.len() == 0 {
        seq![]
    } else {
        insert_text(sort_texts(s.drop_last()), s.last())
    }
}

proof fn lemma_insert_text_at(s: Seq<Seq<char>>, x: Seq<char>, p: int)
    requires
        0 <= p <= s.len(),
        forall|j: int| 0 <= j < p ==> lex_lt(#[trigger] s[j], x),
        p < s.len() ==> !lex_lt(s[p], x),
    ensures
        insert_text(s, x) == s.take(p) + seq![x] + s.skip(p),
    decreases s.len(),
{
    if s.len() == 0 {
        assert(s.take(p) + seq![x] + s.skip(p) =~= seq![x]);
    } else if p == 0 {
        assert(s.take(p) + seq![x] + s.skip(p) =~= seq![x] + s);
    } else {
        let t = s.skip(1);
        assert forall|j: int| 0 <= j < p - 1 implies lex_lt(#[trigger] t[j], x) by {
            assert(t[j] == s[j + 1]);
        }
        lemma_insert_text_at(t, x, p - 1);
        assert(seq![s[0]] + (t.take(p - 1) + seq![x] + t.skip(p - 1)) =~= s.take(p) + seq![x]
            + s.skip(p));
    }
}

/// The strings in lexicographic order.
pub fn sort_strings(v: &Vec<String>) -> (r: Vec<String>)
    ensures
        text::strs(r@) == sort_texts(text::strs(v@)),
{
    let ghost sv = text::strs(v@);
    let mut r: Vec<String> = Vec::new();
    let mut rc: Vec<Vec<char>> = Vec::new();
    let mut i: usize = 0;
    while i < v.len()
        invariant
            i <= v.len(),
            sv == text::strs(v@),
            text::strs(r@) == sort_texts(sv.take(i as int)),
            rc.len() == r.len(),
            forall|j: int| 0 <= j < rc.len() ==> (#[trigger] rc@[j])@ == r@[j]@,
        decreases v.len() - i,
    {
        proof {
            assert(sv.take(i + 1).drop_last() =~= sv.take(i as int));
        }
        let x = chars_of(v[i].as_str());
        let ghost rv = text::strs(r@);
        let mut p: usize = 0;
        while p < rc.len() && lex_less(&rc[p], &x)
            invariant
                p <= rc.len(),
                rc.len() == r.len(),
                rv == text::strs(r@),
                forall|j: int| 0 <= j < rc.len() ==> (#[trigger] rc@[j])@ == r@[j]@,
                forall|j: int| 0 <= j < p ==> lex_lt(#[trigger] rv[j], x@),
            decreases rc.len() - p,
        {
            assert(rv[p as int] == rc@[p as int]@);
            p = p + 1;
        }
        proof {
            if p < rc.len() {
                assert(rv[p as int] == rc@[p as int]@);
            }
            lemma_insert_text_at(rv, x@, p as int);
        }
        let ghost rc0 = rc@;
        let ghost r0 = r@;
        r.insert(p, v[i].clone());
        rc.insert(p, x);
        assert(text::strs(r@) =~= rv.take(p as int) + seq![sv[i as int]] + rv.skip(p as int));
        assert forall|j: int| 0 <= j < rc.len() implies (#[trigger] rc@[j])@ == r@[j]@ by {
            if j < p {
                assert(rc@[j] == rc0[j] && r@[j] == r0[j]);
            } else if j > p {
                assert(rc@[j] == rc0[j - 1] && r@[j] == r0[j - 1]);
            }
        }
        i = i + 1;
    }
    assert(sv.take(v.len() as int) =~= sv);
    r
}


proof fn lemma_lex_lt_irrefl(a: Seq<char>)
    ensures
        !lex_lt(a, a),
    decreases a.len(),
{
    if a.len() > 0 {
        lemma_lex_lt_irrefl(a.skip(1));
    }
}

proof fn lemma_lex_lt_trans(a: Seq<char>, b: Seq<char>, c: Seq<char>)
    requires
        lex_lt(a, b),
        lex_lt(b, c),
    ensures
        lex_lt(a, c),
    decreases a.len(),
{
    if a.len() > 0 && b.len() > 0 && c.len() > 0 && a[0] == b[0] && b[0] == c[0] {
        lemma_lex_lt_trans(a.skip(1), b.skip(1), c.skip(1));
    }
}

proof fn lemma_lex_lt_total(a: Seq<char>, b: Seq<char>)
    requires
        a != b,
    ensures
        lex_lt(a, b) || lex_lt(b, a),
    decreases a.len(),
{
    if a.len() > 0 && b.len() > 0 && a[0] == b[0] {
        if a.skip(1) == b.skip(1) {
            assert(a =~= seq![a[0]] + a.skip(1));
            assert(b =~= seq![b[0]] + b.skip(1));
        }
        lemma_lex_lt_total(a.skip(1), b.skip(1));
    } else if a.len() == 0 && b.len() == 0 {
        assert(a =~= b);
    }
}

proof fn lemma_lex_lt_asym(a: Seq<char>, b: Seq<char>)
    requires
        lex_lt(a, b),
    ensures
        !lex_lt(b, a),
{
    if lex_lt(b, a) {
        lemma_lex_lt_trans(a, b, a);
        lemma_lex_lt_irrefl(a);
    }
}

/// Lexicographic order is a strict total order: irreflexive, transitive, and
/// any two different texts are ordered one way only.
pub proof fn lemma_lex_order(a: Seq<char>, b: Seq<char>, c: Seq<char>)
    ensures
        !lex_lt(a, a),
        lex_lt(a, b) && lex_lt(b, c) ==> lex_lt(a, c),
        a != b ==> lex_lt(a, b) || lex_lt(b, a),
        lex_lt(a, b) ==> !lex_lt(b, a),
{
    lemma_lex_lt_irrefl(a);
    if lex_lt(a, b) && lex_lt(b, c) {
        lemma_lex_lt_trans(a, b, c);
    }
    if a != b {
        lemma_lex_lt_total(a, b);
    }
    if lex_lt(a, b) {
        lemma_lex_lt_asym(a, b);
    }
}

/// The order of spellings (by length, then lexicographically) is a strict
/// total order: irreflexive, transitive, and any two different spellings are
/// ordered one way.
pub proof fn lemma_len_lex_order(a: Seq<char>, b: Seq<char>, c: Seq<char>)
    ensures
        !len_lex_lt(a, a),
        len_lex_lt(a, b) && len_lex_lt(b, c) ==> len_lex_lt(a, c),
        a != b ==> len_lex_lt(a, b) || len_lex_lt(b, a),
        len_lex_lt(a, b) ==> !len_lex_lt(b, a),
{
    lemma_lex_lt_irrefl(a);
    if len_lex_lt(a, b) && len_lex_lt(b, c) && a.len() == b.len() && b.len() == c.len() {
        lemma_lex_lt_trans(a, b, c);
    }
    if a != b && a.len() == b.len() {
        lemma_lex_lt_total(a, b);
    }
    if len_lex_lt(a, b) && a.len() == b.len() {
        lemma_lex_lt_asym(a, b);
    }
}

/// `cmp_by_len_default` orders as a total order: two spellings compare equal
/// exactly when they are the same, and swapping them reverses the result.
pub proof fn lemma_by_len_order(a: Seq<char>, b: Seq<char>)
    ensures
        (by_len_order(a, b) == Ordering::Equal) == (a == b),
        (by_len_order(a, b) == Ordering::Less) == (by_len_order(b, a) == Ordering::Greater),
{
    lemma_len_lex_order(a, b, a);
    lemma_len_lex_order(b, a, b);
}

} // verus!
