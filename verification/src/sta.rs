//! Statistics of spell tables: how many spells of each length are shared by
//! several words, and how often key chains occur.
use crate::dict::{self, find_key};
use crate::out::{self, SpellWords};
use crate::parser::YongDef;
use crate::text::{
    self, byte_len_u32, byte_len_upto4, chars_of, decimal_chars, push_all, split_at_byte, string_of,
};
use vstd::prelude::*;

verus! {

/// Per spell length (in bytes), the number of spells shared by enough words.
pub type ByLenSta = Vec<(u32, u32)>;

/// Index of the first entry of key `k`.
pub open spec fn upos(m: Seq<(u32, u32)>, k: u32) -> Option<int>
    decreases m.len(),
{
    if m.len() == 0 {
        None
    } else {
        match upos(m.drop_last(), k) {
            Some(i) => Some(i),
            None => if m.last().0 == k {
                Some(m.len() - 1)
            } else {
                None
            },
        }
    }
}

proof fn lemma_upos(m: Seq<(u32, u32)>, k: u32)
    ensures
        upos(m, k) matches Some(i) ==> 0 <= i < m.len() && m[i].0 == k && forall|j: int|
            0 <= j < i ==> #[trigger] m[j].0 != k,
        upos(m, k) is None ==> forall|j: int| 0 <= j < m.len() ==> #[trigger] m[j].0 != k,
    decreases m.len(),
{
    if m.len() > 0 {
        lemma_upos(m.drop_last(), k);
        assert forall|j: int| 0 <= j < m.len() - 1 implies #[trigger] m[j] == m.drop_last()[j] by {}
    }
}

/// Counts one spell of byte length `k` shared by `a` words: a length met
/// before counts the spell when `a` reaches the level, a new length when `a`
/// passes it.
pub open spec fn by_len_step(m: Seq<(u32, u32)>, k: u32, a: u32, level: u32) -> Seq<(u32, u32)> {
    match upos(m, k) {
        Some(i) => m.update(i, (k, (m[i].1 + if a >= level { 1u32 } else { 0u32 }) as u32)),
        None => m.push((k, if a > level { 1u32 } else { 0u32 })),
    }
}

/// The counts of a spell table, in order of first appearance of each length.
pub open spec fn by_len_all(d: Seq<SpellWords>, level: u32) -> Seq<(u32, u32)>
    decreases d.len(),
{
    if d.len() == 0 {
        seq![]
    } else {
        by_len_step(
            by_len_all(d.drop_last(), level),
            (text::byte_len(d.last().0) % 0x1_0000_0000) as u32,
            (d.last().1.len() % 0x1_0000_0000) as u32,
            level,
        )
    }
}

/// For each spell length (in bytes), the number of spells shared by at least
/// `count_level` words (by more, for the first spell of a length).
pub fn double_words_by_len(dict: Vec<(String, Vec<String>)>, count_level: u32) -> (r: ByLenSta)
    requires
        dict.len() <= u32::MAX,
    ensures
        r@ == by_len_all(out::sws_view(dict@), count_level),
{
    let ghost dv = out::sws_view(dict@);
    let mut sta: ByLenSta = Vec::new();
    let mut i: usize = 0;
    while i < dict.len()
        invariant
            i <= dict.len(),
            dict.len() <= u32::MAX,
            dv == out::sws_view(dict@),
            sta@ == by_len_all(dv.take(i as int), count_level),
            forall|j: int| 0 <= j < sta.len() ==> (#[trigger] sta@[j]).1 <= i,
        decreases dict.len() - i,
    {
        proof {
            assert(dv.take(i + 1).drop_last() =~= dv.take(i as int));
        }
        let a = ((dict[i].1.len() as u64) % 0x1_0000_0000) as u32;
        let k = byte_len_u32(&chars_of(dict[i].0.as_str()));
        assert(text::strs(dict@[i as int].1@).len() == dict@[i as int].1@.len());
        let mut p: usize = 0;
        while p < sta.len() && sta[p].0 != k
            invariant
                p <= sta.len(),
                forall|j: int| 0 <= j < p ==> (#[trigger] sta@[j]).0 != k,
            decreases sta.len() - p,
        {
            p = p + 1;
        }
        proof {
            lemma_upos(sta@, k);
        }
        if p < sta.len() {
            proof {
                if upos(sta@, k) != Some(p as int) {
                    let q = upos(sta@, k)->0;
                    assert(sta@[q].0 == k);
                }
            }
            let add: u32 = if a >= count_level {
                1
            } else {
                0
            };
            let v = sta[p].1 + add;
            let ghost s0 = sta@;
            let _ = sta.remove(p);
            sta.insert(p, (k, v));
            assert(sta@ =~= s0.update(p as int, (k, v)));
        } else {
            sta.push(
                (
                    k,
                    if a > count_level {
                        1
                    } else {
                        0
                    },
                ),
            );
        }
        i = i + 1;
    }
    assert(dv.take(dict.len() as int) =~= dv);
    sta
}

/// The counts of `double_words_by_len`, without their lengths.
pub fn double_words_by_len_vec(dict: Vec<(String, Vec<String>)>, count_level: u32) -> (r: Vec<u32>)
    requires
        dict.len() <= u32::MAX,
    ensures
        r@ == by_len_all(out::sws_view(dict@), count_level).map_values(|e: (u32, u32)| e.1),
{
    let sta = double_words_by_len(dict, count_level);
    let mut r: Vec<u32> = Vec::new();
    let mut i: usize = 0;
    while i < sta.len()
        invariant
            i <= sta.len(),
            r@ == sta@.take(i as int).map_values(|e: (u32, u32)| e.1),
        decreases sta.len() - i,
    {
        r.push(sta[i].1);
        i = i + 1;
        assert(r@ =~= sta@.take(i as int).map_values(|e: (u32, u32)| e.1));
    }
    assert(sta@.take(sta.len() as int) =~= sta@);
    r
}

/// Order of pairs of numbers: by the first, then by the second.
pub open spec fn num_pair_le(a: (u32, u32), b: (u32, u32)) -> bool {
    a.0 < b.0 || (a.0 == b.0 && a.1 <= b.1)
}

pub open spec fn insert_num_pair(s: Seq<(u32, u32)>, x: (u32, u32)) -> Seq<(u32, u32)>
    decreases s.len(),
{
    if s.len() == 0 {
        seq![x]
    } else if num_pair_le(x, s[0]) {
        seq![x] + s
    } else {
        seq![s[0]] + insert_num_pair(s.skip(1), x)
    }
}

/// The pairs in order (an insertion sort).
pub open spec fn sort_num_pairs(s: Seq<(u32, u32)>) -> Seq<(u32, u32)>
    decreases s.len(),
{
    if s.len() == 0 {
        seq![]
    } else {
        insert_num_pair(sort_num_pairs(s.drop_last()), s.last())
    }
}

proof fn lemma_insert_num_pair_at(s: Seq<(u32, u32)>, x: (u32, u32), p: int)
    requires
        0 <= p <= s.len(),
        forall|j: int| 0 <= j < p ==> !num_pair_le(x, #[trigger] s[j]),
        p < s.len() ==> num_pair_le(x, s[p]),
    ensures
        insert_num_pair(s, x) == s.take(p) + seq![x] + s.skip(p),
    decreases s.len(),
{
    if s.len() == 0 {
        assert(s.take(p) + seq![x] + s.skip(p) =~= seq![x]);
    } else if p == 0 {
        assert(s.take(p) + seq![x] + s.skip(p) =~= seq![x] + s);
    } else {
        let t = s.skip(1);
        assert forall|j: int| 0 <= j < p - 1 implies !num_pair_le(x, #[trigger] t[j]) by {
            assert(t[j] == s[j + 1]);
        }
        lemma_insert_num_pair_at(t, x, p - 1);
        assert(seq![s[0]] + (t.take(p - 1) + seq![x] + t.skip(p - 1)) =~= s.take(p) + seq![x]
            + s.skip(p));
    }
}

/// The entries of the statistics, in order.
pub fn display_hashmap(h: ByLenSta) -> (r: Vec<(u32, u32)>)
    ensures
        r@ == sort_num_pairs(h@),
{
    let mut r: Vec<(u32, u32)> = Vec::new();
    let mut i: usize = 0;
    while i < h.len()
        invariant
            i <= h.len(),
            r@ == sort_num_pairs(h@.take(i as int)),
        decreases h.len() - i,
    {
        let x = h[i];
        proof {
            assert(h@.take(i + 1).drop_last() =~= h@.take(i as int));
        }
        let mut p: usize = 0;
        while p < r.len() && !(x.0 < r[p].0 || (x.0 == r[p].0 && x.1 <= r[p].1))
            invariant
                p <= r.len(),
                forall|j: int| 0 <= j < p ==> !num_pair_le(x, #[trigger] r@[j]),
            decreases r.len() - p,
        {
            p = p + 1;
        }
        proof {
            lemma_insert_num_pair_at(r@, x, p as int);
        }
        let ghost r0 = r@;
        r.insert(p, x);
        assert(r@ =~= r0.take(p as int) + seq![x] + r0.skip(p as int));
        i = i + 1;
    }
    assert(h@.take(h.len() as int) =~= h@);
    r
}

/// Chain counts: per chain, the counts of the chain and of its reverse.
pub type ChainCounts = Vec<(String, Vec<(String, u32)>)>;

pub open spec fn counts_view(h: Seq<(String, Vec<(String, u32)>)>) -> Seq<
    (Seq<char>, Seq<(Seq<char>, u32)>),
> {
    h.map_values(|e: (String, Vec<(String, u32)>)| (e.0@, dict::vview(e.1@)))
}

/// Counts `t` once more among the counts of one chain.
pub open spec fn bump(inner: Seq<(Seq<char>, u32)>, t: Seq<char>) -> Seq<(Seq<char>, u32)> {
    match dict::key_pos(inner, t) {
        Some(j) => inner.update(j, (t, (inner[j].1 + 1) as u32)),
        None => inner.push((t, 1u32)),
    }
}

/// Counts a two-key chain: under the entry of the chain or, failing that, of
/// its reverse; a new chain opens its own entry.
pub open spec fn chain_step(h: Seq<(Seq<char>, Seq<(Seq<char>, u32)>)>, t: Seq<char>) -> Seq<
    (Seq<char>, Seq<(Seq<char>, u32)>),
> {
    let k = if dict::key_pos(h, t) is Some {
        Some(t)
    } else if dict::key_pos(h, t.reverse()) is Some {
        Some(t.reverse())
    } else {
        None
    };
    match k {
        Some(k) => {
            let i = dict::key_pos(h, k)->0;
            h.update(i, (k, bump(h[i].1, t)))
        },
        None => h.push((t, seq![(t, 1u32)])),
    }
}

/// The chain that a spell starts at byte `start`: its first two characters.
pub open spec fn chain_of(spell: Seq<char>, start: int) -> Seq<char> {
    let rest = spell.skip(text::chars_in_bytes(spell, start));
    rest.take(if rest.len() < 2 { rest.len() as int } else { 2 })
}

/// The chain counts of spells: each chain of two bytes is counted.
pub open spec fn count_all(spells: Seq<Seq<char>>, start: int) -> Seq<
    (Seq<char>, Seq<(Seq<char>, u32)>),
>
    decreases spells.len(),
{
    if spells.len() == 0 {
        seq![]
    } else {
        let h = count_all(spells.drop_last(), start);
        let t = chain_of(spells.last(), start);
        if text::byte_len(t) == 2 {
            chain_step(h, t)
        } else {
            h
        }
    }
}

pub open spec fn spells_of_defs(defs: Seq<YongDef>) -> Seq<Seq<char>> {
    defs.map_values(|d: YongDef| d.spell@)
}

pub open spec fn counts_below(h: Seq<(Seq<char>, Seq<(Seq<char>, u32)>)>, n: int) -> bool {
    forall|i: int, j: int|
        0 <= i < h.len() && 0 <= j < h[i].1.len() ==> (#[trigger] h[i].1[j]).1 <= n
}

fn reversed(s: &Vec<char>) -> (r: Vec<char>)
    ensures
        r@ == s@.reverse(),
{
    let mut r: Vec<char> = Vec::new();
    let mut i = s.len();
    while i > 0
        invariant
            i <= s.len(),
            r@ == s@.skip(i as int).reverse(),
        decreases i,
    {
        i = i - 1;
        r.push(s[i]);
        assert(r@ =~= s@.skip(i as int).reverse());
    }
    assert(s@.skip(0) =~= s@);
    r
}

/// Counts a chain once more among the counts of one chain.
fn bump_exec(inner: &mut Vec<(String, u32)>, t: String, ghost_bound: usize)
    requires
        forall|j: int| 0 <= j < old(inner).len() ==> (#[trigger] old(inner)@[j]).1 <= ghost_bound,
        ghost_bound < u32::MAX,
    ensures
        dict::vview(final(inner)@) == bump(dict::vview(old(inner)@), t@),
        forall|j: int| 0 <= j < final(inner).len() ==> (#[trigger] final(inner)@[j]).1 <= ghost_bound
            + 1,
{
    proof {
        assert forall|j: int| 0 <= j < inner@.len() implies #[trigger] dict::kview(inner@)[j].0
            == dict::vview(inner@)[j].0 by {}
        dict::lemma_same_keys(dict::kview(inner@), dict::vview(inner@), t@);
    }
    let ghost g0 = dict::vview(inner@);
    match find_key(inner, &t) {
        Some(j) => {
            proof {
                dict::lemma_key_pos(dict::kview(inner@), t@);
            }
            let v = inner[j].1 + 1;
            let _ = inner.remove(j);
            inner.insert(j, (t, v));
            assert(dict::vview(inner@) =~= g0.update(j as int, (t@, v)));
        },
        None => {
            inner.push((t, 1));
            assert(dict::vview(inner@) =~= g0.push((t@, 1u32)));
        },
    }
}

/// Counts the two-key chains that the spells of the definitions start at byte
/// `chain_start`, each under the entry of the chain or of its reverse.
pub fn count_chain(chain_start: usize, defs: &Vec<YongDef>) -> (r: ChainCounts)
    requires
        defs.len() < u32::MAX,
        forall|i: int|
            0 <= i < defs.len() ==> text::is_byte_boundary(
                (#[trigger] defs@[i]).spell@,
                chain_start as int,
            ),
    ensures
        counts_view(r@) == count_all(spells_of_defs(defs@), chain_start as int),
{
    let ghost sv = spells_of_defs(defs@);
    let mut h: ChainCounts = Vec::new();
    let mut i: usize = 0;
    while i < defs.len()
        invariant
            i <= defs.len(),
            defs.len() < u32::MAX,
            sv == spells_of_defs(defs@),
            forall|q: int|
                0 <= q < defs.len() ==> text::is_byte_boundary(
                    (#[trigger] defs@[q]).spell@,
                    chain_start as int,
                ),
            counts_view(h@) == count_all(sv.take(i as int), chain_start as int),
            counts_below(counts_view(h@), i as int),
        decreases defs.len() - i,
    {
        proof {
            assert(sv.take(i + 1).drop_last() =~= sv.take(i as int));
            assert(sv[i as int] == defs@[i as int].spell@);
        }
        let spell = chars_of(defs[i].spell.as_str());
        let (_, chain) = split_at_byte(&spell, chain_start);
        let n = if chain.len() < 2 {
            chain.len()
        } else {
            2
        };
        let mut target: Vec<char> = Vec::new();
        let mut q: usize = 0;
        while q < n
            invariant
                n <= chain.len(),
                q <= n,
                target@ == chain@.take(q as int),
            decreases n - q,
        {
            target.push(chain[q]);
            q = q + 1;
            assert(target@ =~= chain@.take(q as int));
        }
        assert(target@ == chain_of(sv[i as int], chain_start as int));
        if byte_len_upto4(&target) == 2 {
            let ghost hv = counts_view(h@);
            let ts = string_of(&target);
            let rv = string_of(&reversed(&target));
            proof {
                assert forall|j: int| 0 <= j < h@.len() implies #[trigger] dict::kview(h@)[j].0
                    == hv[j].0 by {}
                dict::lemma_same_keys(dict::kview(h@), hv, ts@);
                dict::lemma_same_keys(dict::kview(h@), hv, rv@);
            }
            let found = match find_key(&h, &ts) {
                Some(p) => Some(p),
                None => find_key(&h, &rv),
            };
            match found {
                Some(p) => {
                    proof {
                        dict::lemma_key_pos(dict::kview(h@), ts@);
                        dict::lemma_key_pos(dict::kview(h@), rv@);
                    }
                    let (k, mut inner) = h.remove(p);
                    proof {
                        assert(hv[p as int].1 == dict::vview(inner@));
                        assert forall|j: int| 0 <= j < inner.len() implies (
                        #[trigger] inner@[j]).1 <= i by {
                            assert(dict::vview(inner@)[j].1 == inner@[j].1);
                            assert(hv[p as int].1[j].1 <= i);
                        }
                    }
                    bump_exec(&mut inner, ts, i);
                    h.insert(p, (k, inner));
                    proof {
                        assert(counts_view(h@) =~= hv.update(
                            p as int,
                            (hv[p as int].0, bump(hv[p as int].1, target@)),
                        ));
                        assert forall|a: int, b: int|
                            0 <= a < counts_view(h@).len() && 0 <= b < counts_view(
                                h@,
                            )[a].1.len() implies (#[trigger] counts_view(h@)[a].1[b]).1 <= i
                            + 1 by {
                            if a == p {
                                assert(counts_view(h@)[a].1[b].1 == inner@[b].1);
                            } else {
                                assert(counts_view(h@)[a] == hv[a]);
                            }
                        }
                    }
                },
                None => {
                    let mut inner: Vec<(String, u32)> = Vec::new();
                    let t2 = string_of(&target);
                    inner.push((t2, 1));
                    h.push((ts, inner));
                    proof {
                        assert(dict::vview(inner@) =~= seq![(target@, 1u32)]);
                        assert(counts_view(h@) =~= hv.push((target@, seq![(target@, 1u32)])));
                        assert forall|a: int, b: int|
                            0 <= a < counts_view(h@).len() && 0 <= b < counts_view(
                                h@,
                            )[a].1.len() implies (#[trigger] counts_view(h@)[a].1[b]).1 <= i
                            + 1 by {
                            if a < hv.len() {
                                assert(counts_view(h@)[a] == hv[a]);
                            }
                        }
                    }
                },
            }
        } else {
            proof {
                lemma_counts_below_mono(counts_view(h@), i as int);
            }
        }
        i = i + 1;
    }
    assert(sv.take(defs.len() as int) =~= sv);
    h
}

proof fn lemma_counts_below_mono(h: Seq<(Seq<char>, Seq<(Seq<char>, u32)>)>, n: int)
    requires
        counts_below(h, n),
    ensures
        counts_below(h, n + 1),
{
    assert forall|i: int, j: int| 0 <= i < h.len() && 0 <= j < h[i].1.len() implies (
    #[trigger] h[i].1[j]).1 <= n + 1 by {
        assert(h[i].1[j].1 <= n);
    }
}


/// The total of the counts under one chain.
pub open spec fn count_total(inner: Seq<(Seq<char>, u32)>) -> nat
    decreases inner.len(),
{
    if inner.len() == 0 {
        0
    } else {
        count_total(inner.drop_last()) + inner.last().1 as nat
    }
}

proof fn lemma_count_total_prefix(s: Seq<(Seq<char>, u32)>, i: int)
    requires
        0 <= i <= s.len(),
    ensures
        count_total(s.take(i)) <= count_total(s),
    decreases s.len(),
{
    if i < s.len() {
        assert(s.drop_last().take(i) =~= s.take(i));
        lemma_count_total_prefix(s.drop_last(), i);
    } else {
        assert(s.take(i) =~= s);
    }
}

/// Each counted chain and its count, each after a space.
pub open spec fn counts_text(inner: Seq<(Seq<char>, u32)>) -> Seq<char>
    decreases inner.len(),
{
    if inner.len() == 0 {
        seq![]
    } else {
        counts_text(inner.drop_last()) + seq![' '] + inner.last().0 + seq![' '] + text::decimal(
            inner.last().1 as nat,
        )
    }
}

/// The line that shows one chain: its counts, then ` = ` and their total.
pub open spec fn count_line(inner: Seq<(Seq<char>, u32)>) -> Seq<char> {
    counts_text(inner) + seq![' ', '=', ' '] + text::decimal(count_total(inner))
}

/// Inserts `x` after the last row whose total is not below its total.
pub open spec fn insert_desc(s: Seq<(Seq<char>, nat)>, x: (Seq<char>, nat)) -> Seq<(Seq<char>, nat)>
    decreases s.len(),
{
    if s.len() == 0 {
        seq![x]
    } else if s.last().1 < x.1 {
        insert_desc(s.drop_last(), x).push(s.last())
    } else {
        s.push(x)
    }
}

/// The rows by descending totals; rows of equal totals keep their order.
pub open spec fn sort_desc(s: Seq<(Seq<char>, nat)>) -> Seq<(Seq<char>, nat)>
    decreases s.len(),
{
    if s.len() == 0 {
        seq![]
    } else {
        insert_desc(sort_desc(s.drop_last()), s.last())
    }
}

/// Per chain, its line and its total.
pub open spec fn count_rows(count: Seq<(Seq<char>, Seq<(Seq<char>, u32)>)>) -> Seq<(Seq<char>, nat)> {
    count.map_values(
        |e: (Seq<char>, Seq<(Seq<char>, u32)>)| (count_line(e.1), count_total(e.1)),
    )
}

/// The lines that show chain counts, in the order of the counts, or by
/// descending totals with `sort`.
pub open spec fn count_lines(count: Seq<(Seq<char>, Seq<(Seq<char>, u32)>)>, sort: bool) -> Seq<
    Seq<char>,
> {
    let rows = count_rows(count);
    let ordered = if sort {
        sort_desc(rows)
    } else {
        rows
    };
    ordered.map_values(|r: (Seq<char>, nat)| r.0)
}

/// Each chain's total fits in a `u32`.
pub open spec fn totals_fit(count: Seq<(Seq<char>, Seq<(Seq<char>, u32)>)>) -> bool {
    forall|i: int| 0 <= i < count.len() ==> count_total((#[trigger] count[i]).1) <= u32::MAX
}

/// No row has a larger total than a row before it.
pub open spec fn totals_descending(s: Seq<(Seq<char>, nat)>) -> bool {
    forall|i: int, j: int| 0 <= i < j < s.len() ==> (#[trigger] s[j]).1 <= (#[trigger] s[i]).1
}

proof fn lemma_insert_desc(s: Seq<(Seq<char>, nat)>, x: (Seq<char>, nat))
    requires
        totals_descending(s),
    ensures
        totals_descending(insert_desc(s, x)),
        insert_desc(s, x).to_multiset() == s.to_multiset().insert(x),
    decreases s.len(),
{
    broadcast use vstd::multiset::group_multiset_axioms, vstd::seq_lib::group_to_multiset_ensures;

    let r = insert_desc(s, x);
    if s.len() == 0 {
        assert(r =~= Seq::<(Seq<char>, nat)>::empty().push(x));
    } else {
        let l = s.last();
        let a = s.drop_last();
        assert(a.push(l) =~= s);
        if l.1 < x.1 {
            assert forall|i: int, j: int| 0 <= i < j < a.len() implies (#[trigger] a[j]).1 <= (
            #[trigger] a[i]).1 by {
                assert(a[i] == s[i] && a[j] == s[j]);
            }
            lemma_insert_desc(a, x);
            let ia = insert_desc(a, x);
            assert forall|k: int| 0 <= k < ia.len() implies l.1 <= (#[trigger] ia[k]).1 by {
                assert(ia.to_multiset().count(ia[k]) > 0);
                if ia[k] != x {
                    assert(a.to_multiset().count(ia[k]) > 0);
                    assert(a.contains(ia[k]));
                    let q = choose|q: int| 0 <= q < a.len() && a[q] == ia[k];
                    assert(s[q] == a[q] && s[s.len() - 1] == l);
                }
            }
            assert forall|i: int, j: int| 0 <= i < j < r.len() implies (#[trigger] r[j]).1 <= (
            #[trigger] r[i]).1 by {
                if j == r.len() - 1 {
                    assert(r[j] == l && r[i] == ia[i]);
                } else {
                    assert(r[i] == ia[i] && r[j] == ia[j]);
                }
            }
        } else {
            assert forall|i: int, j: int| 0 <= i < j < r.len() implies (#[trigger] r[j]).1 <= (
            #[trigger] r[i]).1 by {
                if j == r.len() - 1 {
                    assert(r[j] == x && r[i] == s[i]);
                    if i < s.len() - 1 {
                        assert(s[s.len() - 1].1 <= s[i].1);
                    }
                } else {
                    assert(r[i] == s[i] && r[j] == s[j]);
                }
            }
        }
    }
}

/// Sorting chains by their totals puts larger totals first and keeps every row.
pub proof fn lemma_sort_desc(s: Seq<(Seq<char>, nat)>)
    ensures
        totals_descending(sort_desc(s)),
        sort_desc(s).to_multiset() == s.to_multiset(),
    decreases s.len(),
{
    broadcast use vstd::multiset::group_multiset_axioms, vstd::seq_lib::group_to_multiset_ensures;

    if s.len() > 0 {
        lemma_sort_desc(s.drop_last());
        lemma_insert_desc(sort_desc(s.drop_last()), s.last());
        assert(s.drop_last().push(s.last()) =~= s);
    }
}

proof fn lemma_insert_desc_at(s: Seq<(Seq<char>, nat)>, x: (Seq<char>, nat), j: int)
    requires
        0 <= j <= s.len(),
        forall|k: int| j <= k < s.len() ==> (#[trigger] s[k]).1 < x.1,
        j == 0 || !(s[j - 1].1 < x.1),
    ensures
        insert_desc(s, x) == s.take(j).push(x) + s.skip(j),
    decreases s.len(),
{
    if s.len() == j {
        assert(s.skip(j) =~= Seq::<(Seq<char>, nat)>::empty());
        if j == 0 {
            assert(s.take(0).push(x) =~= seq![x]);
        } else {
            assert(s.take(j) =~= s);
        }
        assert(s.take(j).push(x) + s.skip(j) =~= s.take(j).push(x));
    } else {
        let t = s.drop_last();
        assert forall|k: int| j <= k < t.len() implies (#[trigger] t[k]).1 < x.1 by {
            assert(t[k] == s[k]);
        }
        if j > 0 {
            assert(t[j - 1] == s[j - 1]);
        }
        lemma_insert_desc_at(t, x, j);
        assert(t.take(j) =~= s.take(j));
        assert(t.skip(j).push(s.last()) =~= s.skip(j));
        assert((t.take(j).push(x) + t.skip(j)).push(s.last()) =~= s.take(j).push(x) + s.skip(j));
    }
}

fn count_line_exec(inner: &Vec<(String, u32)>) -> (r: (String, u32))
    requires
        count_total(dict::vview(inner@)) <= u32::MAX,
    ensures
        r.0@ == count_line(dict::vview(inner@)),
        r.1 == count_total(dict::vview(inner@)),
{
    let ghost s = dict::vview(inner@);
    let mut out: Vec<char> = Vec::new();
    let mut sum: u32 = 0;
    let mut i: usize = 0;
    while i < inner.len()
        invariant
            i <= inner.len(),
            s == dict::vview(inner@),
            count_total(s) <= u32::MAX,
            out@ == counts_text(s.take(i as int)),
            sum == count_total(s.take(i as int)),
        decreases inner.len() - i,
    {
        proof {
            assert(s.take(i + 1).drop_last() =~= s.take(i as int));
            lemma_count_total_prefix(s, i + 1);
            assert(s.take(i + 1).last() == s[i as int]);
        }
        sum = sum + inner[i].1;
        let ghost before = out@;
        out.push(' ');
        push_all(&mut out, &chars_of(inner[i].0.as_str()));
        out.push(' ');
        push_all(&mut out, &decimal_chars(inner[i].1 as u64));
        assert(out@ =~= before + seq![' '] + s[i as int].0 + seq![' '] + text::decimal(
            s[i as int].1 as nat,
        ));
        i = i + 1;
    }
    assert(s.take(inner.len() as int) =~= s);
    let ghost body = out@;
    out.push(' ');
    out.push('=');
    out.push(' ');
    push_all(&mut out, &decimal_chars(sum as u64));
    assert(out@ =~= body + seq![' ', '=', ' '] + text::decimal(count_total(s)));
    (string_of(&out), sum)
}

pub open spec fn rows_view(v: Seq<(String, u32)>) -> Seq<(Seq<char>, nat)> {
    v.map_values(|e: (String, u32)| (e.0@, e.1 as nat))
}

/// Sorts the rows by descending totals, keeping rows of equal totals in order.
fn sort_rows(rows: Vec<(String, u32)>) -> (r: Vec<(String, u32)>)
    ensures
        rows_view(r@) == sort_desc(rows_view(rows@)),
{
    let mut r: Vec<(String, u32)> = Vec::new();
    let n = rows.len();
    let mut rest = rows;
    let ghost d0 = rows_view(rows@);
    let mut i: usize = 0;
    while i < n
        invariant
            i <= n,
            n == rows@.len(),
            rest@.len() == n - i,
            d0 == rows_view(rows@),
            rest@ == rows@.skip(i as int),
            rows_view(r@) == sort_desc(d0.take(i as int)),
        decreases n - i,
    {
        let e = rest.remove(0);
        assert(e == rows@[i as int]);
        let mut j = r.len();
        while j > 0 && r[j - 1].1 < e.1
            invariant
                j <= r.len(),
                forall|k: int| j <= k < r@.len() ==> (#[trigger] rows_view(r@)[k]).1 < e.1,
            decreases j,
        {
            j = j - 1;
        }
        proof {
            assert(rest@ =~= rows@.skip(i + 1));
            lemma_insert_desc_at(rows_view(r@), (e.0@, e.1 as nat), j as int);
            assert(d0.take(i + 1).drop_last() =~= d0.take(i as int));
            assert(d0[i as int] == (e.0@, e.1 as nat));
        }
        let ghost before = rows_view(r@);
        r.insert(j, e);
        assert(rows_view(r@) =~= before.take(j as int).push((e.0@, e.1 as nat)) + before.skip(
            j as int,
        ));
        i = i + 1;
    }
    assert(d0.take(n as int) =~= d0);
    r
}

/// The lines that show chain counts: per chain, each counted chain and its
/// count, then ` = ` and their total; with `sort`, chains with larger totals
/// come first and chains of equal totals keep their order.
pub fn count_chain_lines(count: ChainCounts, sort: bool) -> (r: Vec<String>)
    requires
        totals_fit(counts_view(count@)),
    ensures
        text::strs(r@) == count_lines(counts_view(count@), sort),
{
    let ghost cv = counts_view(count@);
    let mut rows: Vec<(String, u32)> = Vec::new();
    let mut i: usize = 0;
    while i < count.len()
        invariant
            i <= count.len(),
            cv == counts_view(count@),
            totals_fit(cv),
            rows_view(rows@) == count_rows(cv).take(i as int),
        decreases count.len() - i,
    {
        proof {
            assert(cv[i as int].1 == dict::vview(count@[i as int].1@));
        }
        let row = count_line_exec(&count[i].1);
        let ghost before = rows_view(rows@);
        rows.push(row);
        assert(rows_view(rows@) =~= before.push((row.0@, row.1 as nat)));
        assert(count_rows(cv).take(i + 1) =~= count_rows(cv).take(i as int).push(
            count_rows(cv)[i as int],
        ));
        i = i + 1;
    }
    assert(count_rows(cv).take(count.len() as int) =~= count_rows(cv));
    let ordered = if sort {
        sort_rows(rows)
    } else {
        rows
    };
    let ghost ov = rows_view(ordered@);
    let mut r: Vec<String> = Vec::new();
    let mut k: usize = 0;
    while k < ordered.len()
        invariant
            k <= ordered.len(),
            ov == rows_view(ordered@),
            text::strs(r@) == ov.take(k as int).map_values(|x: (Seq<char>, nat)| x.0),
        decreases ordered.len() - k,
    {
        let ghost before = text::strs(r@);
        let line = ordered[k].0.clone();
        r.push(line);
        assert(ov[k as int].0 == line@);
        assert(text::strs(r@) =~= before.push(line@));
        assert(ov.take(k + 1).map_values(|x: (Seq<char>, nat)| x.0) =~= ov.take(k as int).map_values(
            |x: (Seq<char>, nat)| x.0,
        ).push(ov[k as int].0));
        k = k + 1;
    }
    assert(ov.take(ordered.len() as int) =~= ov);
    r
}

} // verus!
