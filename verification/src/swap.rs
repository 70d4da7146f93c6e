//! Swap tables: which keyboard key types which Cangjie key. The keys of a
//! table that are not fixed in advance are permuted, and each permutation is
//! scored over the dictionary.
use crate::cmap::{self, CharMap, cmap_from, cvalue};
use crate::dict;
use crate::kt::{self, SwapKeyDict, YongDictWordSpells};
use crate::out::{self, DictTranslator, WithMakeWordSpecifier, specifier_to_wordspells};
use crate::py::ShuangPinTables;
use crate::repeat::{self, score_swap_dict};
use crate::text::{self, chars_of, decimal_chars, lines_of, parse_usize, split_pieces, string_of};
use crate::chain;
use crate::util::{self, lex_less};
use itertools::Itertools;
use vstd::prelude::*;

verus! {

/// `x` placed before the first character not below it.
pub open spec fn insert_char(s: Seq<char>, x: char) -> Seq<char>
    decreases s.len(),
{
    if s.len() == 0 {
        seq![x]
    } else if x <= s[0] {
        seq![x] + s
    } else {
        seq![s[0]] + insert_char(s.skip(1), x)
    }
}

/// The characters in ascending order.
pub open spec fn sort_chars(s: Seq<char>) -> Seq<char>
    decreases s.len(),
{
    if s.len() == 0 {
        seq![]
    } else {
        insert_char(sort_chars(s.drop_last()), s.last())
    }
}

pub open spec fn chars_sorted(s: Seq<char>) -> bool {
    forall|i: int, j: int| 0 <= i < j < s.len() ==> #[trigger] s[i] <= #[trigger] s[j]
}

proof fn lemma_insert_char_at(s: Seq<char>, x: char, p: int)
    requires
        0 <= p <= s.len(),
        forall|j: int| 0 <= j < p ==> !(x <= #[trigger] s[j]),
        p < s.len() ==> x <= s[p],
    ensures
        insert_char(s, x) == s.take(p) + seq![x] + s.skip(p),
    decreases s.len(),
{
    if s.len() == 0 {
        assert(s.take(p) + seq![x] + s.skip(p) =~= seq![x]);
    } else if p == 0 {
        assert(s.take(p) + seq![x] + s.skip(p) =~= seq![x] + s);
    } else {
        let t = s.skip(1);
        assert forall|j: int| 0 <= j < p - 1 implies !(x <= #[trigger] t[j]) by {
            assert(t[j] == s[j + 1]);
        }
        lemma_insert_char_at(t, x, p - 1);
        assert(seq![s[0]] + (t.take(p - 1) + seq![x] + t.skip(p - 1)) =~= s.take(p) + seq![x]
            + s.skip(p));
    }
}

proof fn lemma_insert_char(s: Seq<char>, x: char)
    requires
        chars_sorted(s),
    ensures
        chars_sorted(insert_char(s, x)),
        insert_char(s, x).to_multiset() == s.to_multiset().insert(x),
    decreases s.len(),
{
    broadcast use vstd::multiset::group_multiset_axioms, vstd::seq_lib::group_to_multiset_ensures;

    let r = insert_char(s, x);
    if s.len() == 0 {
        assert(r =~= seq![x]);
        assert(seq![x] =~= Seq::<char>::empty().push(x));
    } else if x <= s[0] {
        assert forall|i: int, j: int| 0 <= i < j < r.len() implies #[trigger] r[i] <= #[trigger] r[j] by {
            if i == 0 {
                assert(s[0] <= s[j - 1] || j - 1 == 0);
            }
        }
        vstd::seq_lib::lemma_multiset_commutative(seq![x], s);
        assert(seq![x] =~= Seq::<char>::empty().push(x));
    } else {
        let t = s.skip(1);
        assert forall|i: int, j: int| 0 <= i < j < t.len() implies #[trigger] t[i] <= #[trigger] t[j] by {
            assert(t[i] == s[i + 1] && t[j] == s[j + 1]);
        }
        lemma_insert_char(t, x);
        let it = insert_char(t, x);
        assert(r == seq![s[0]] + it);
        assert forall|k: int| 0 <= k < it.len() implies s[0] <= #[trigger] it[k] by {
            assert(it.to_multiset().count(it[k]) > 0);
            assert(t.to_multiset().insert(x).count(it[k]) > 0);
            if it[k] != x {
                assert(t.to_multiset().count(it[k]) > 0);
                assert(t.contains(it[k]));
                let q = choose|q: int| 0 <= q < t.len() && t[q] == it[k];
                assert(s[q + 1] == t[q]);
            }
        }
        assert forall|i: int, j: int| 0 <= i < j < r.len() implies #[trigger] r[i] <= #[trigger] r[j] by {
            if i == 0 {
                assert(r[j] == it[j - 1]);
            } else {
                assert(r[i] == it[i - 1] && r[j] == it[j - 1]);
            }
        }
        vstd::seq_lib::lemma_multiset_commutative(seq![s[0]], it);
        vstd::seq_lib::lemma_multiset_commutative(seq![s[0]], t);
        assert(seq![s[0]] + t =~= s);
    }
}

/// The sorted characters are in order and are the same characters.
pub proof fn lemma_sort_chars(s: Seq<char>)
    ensures
        chars_sorted(sort_chars(s)),
        sort_chars(s).to_multiset() == s.to_multiset(),
    decreases s.len(),
{
    broadcast use vstd::multiset::group_multiset_axioms, vstd::seq_lib::group_to_multiset_ensures;

    if s.len() > 0 {
        lemma_sort_chars(s.drop_last());
        lemma_insert_char(sort_chars(s.drop_last()), s.last());
        assert(s.drop_last().push(s.last()) =~= s);
    }
}

/// The characters of `s`, sorted.
pub fn sorted_chars(s: &Vec<char>) -> (r: Vec<char>)
    ensures
        r@ == sort_chars(s@),
{
    let mut r: Vec<char> = Vec::new();
    let mut i: usize = 0;
    while i < s.len()
        invariant
            i <= s.len(),
            r@ == sort_chars(s@.take(i as int)),
        decreases s.len() - i,
    {
        let x = s[i];
        proof {
            assert(s@.take(i + 1).drop_last() =~= s@.take(i as int));
        }
        let mut p: usize = 0;
        while p < r.len() && !(x <= r[p])
            invariant
                p <= r.len(),
                forall|j: int| 0 <= j < p ==> !(x <= #[trigger] r@[j]),
            decreases r.len() - p,
        {
            p = p + 1;
        }
        proof {
            lemma_insert_char_at(r@, x, p as int);
        }
        let ghost r0 = r@;
        r.insert(p, x);
        assert(r@ =~= r0.take(p as int) + seq![x] + r0.skip(p as int));
        i = i + 1;
    }
    assert(s@.take(s.len() as int) =~= s@);
    r
}

/// The characters of `s` that are in neither `a` nor `b`.
pub open spec fn keep_out(s: Seq<char>, a: Seq<char>, b: Seq<char>) -> Seq<char>
    decreases s.len(),
{
    if s.len() == 0 {
        seq![]
    } else {
        keep_out(s.drop_last(), a, b) + if !a.contains(s.last()) && !b.contains(s.last()) {
            seq![s.last()]
        } else {
            Seq::<char>::empty()
        }
    }
}

fn contains_char(s: &Vec<char>, c: char) -> (r: bool)
    ensures
        r == s@.contains(c),
{
    let mut i: usize = 0;
    while i < s.len()
        invariant
            i <= s.len(),
            forall|j: int| 0 <= j < i ==> s@[j] != c,
        decreases s.len() - i,
    {
        if s[i] == c {
            return true;
        }
        i = i + 1;
    }
    false
}

pub fn keep_out_exec(s: &Vec<char>, a: &Vec<char>, b: &Vec<char>) -> (r: Vec<char>)
    ensures
        r@ == keep_out(s@, a@, b@),
{
    let mut r: Vec<char> = Vec::new();
    let mut i: usize = 0;
    while i < s.len()
        invariant
            i <= s.len(),
            r@ == keep_out(s@.take(i as int), a@, b@),
        decreases s.len() - i,
    {
        proof {
            assert(s@.take(i + 1).drop_last() =~= s@.take(i as int));
        }
        if !contains_char(a, s[i]) && !contains_char(b, s[i]) {
            r.push(s[i]);
        }
        i = i + 1;
        assert(r@ =~= keep_out(s@.take(i as int), a@, b@));
    }
    assert(s@.take(s.len() as int) =~= s@);
    r
}

pub open spec fn keys_of(m: Seq<(char, char)>) -> Seq<char> {
    m.map_values(|p: (char, char)| p.0)
}

pub open spec fn values_of(m: Seq<(char, char)>) -> Seq<char> {
    m.map_values(|p: (char, char)| p.1)
}

pub fn keys_exec(m: &CharMap, values: bool) -> (r: Vec<char>)
    ensures
        r@ == if values {
            values_of(m@)
        } else {
            keys_of(m@)
        },
{
    let mut r: Vec<char> = Vec::new();
    let mut i: usize = 0;
    while i < m.len()
        invariant
            i <= m.len(),
            r@ == if values {
                values_of(m@.take(i as int))
            } else {
                keys_of(m@.take(i as int))
            },
        decreases m.len() - i,
    {
        if values {
            r.push(m[i].1);
        } else {
            r.push(m[i].0);
        }
        i = i + 1;
        assert(r@ =~= if values {
            values_of(m@.take(i as int))
        } else {
            keys_of(m@.take(i as int))
        });
    }
    assert(m@.take(m.len() as int) =~= m@);
    r
}

/// The first characters of the entries of a swap dictionary whose key and
/// value are not empty.
pub open spec fn first_char_pairs(d: Seq<(Seq<char>, Seq<char>)>) -> Seq<(char, char)>
    decreases d.len(),
{
    if d.len() == 0 {
        seq![]
    } else {
        first_char_pairs(d.drop_last()) + if d.last().0.len() > 0 && d.last().1.len() > 0 {
            seq![(d.last().0[0], d.last().1[0])]
        } else {
            Seq::<(char, char)>::empty()
        }
    }
}

/// The character swap table of a swap dictionary (its first characters),
/// a later entry of a key replacing an earlier one.
pub fn first_char_table(swap: &SwapKeyDict) -> (r: CharMap)
    ensures
        r@ == cmap::cput_all(first_char_pairs(kt::sd_view(swap@))),
        cmap::cunique(r@),
{
    let ghost sv = kt::sd_view(swap@);
    let mut pairs: Vec<(char, char)> = Vec::new();
    let mut i: usize = 0;
    while i < swap.len()
        invariant
            i <= swap.len(),
            sv == kt::sd_view(swap@),
            pairs@ == first_char_pairs(sv.take(i as int)),
        decreases swap.len() - i,
    {
        proof {
            assert(sv.take(i + 1).drop_last() =~= sv.take(i as int));
        }
        let k = chars_of(swap[i].0.as_str());
        let v = chars_of(swap[i].1.as_str());
        if k.len() > 0 && v.len() > 0 {
            pairs.push((k[0], v[0]));
        }
        i = i + 1;
        assert(pairs@ =~= first_char_pairs(sv.take(i as int)));
    }
    assert(sv.take(swap.len() as int) =~= sv);
    cmap_from(&pairs)
}

/// The pairs of the characters of `a` and `b` at the same places, as far as
/// the shorter reaches.
pub open spec fn zip_chars(a: Seq<char>, b: Seq<char>) -> Seq<(char, char)> {
    Seq::new(if a.len() <= b.len() { a.len() } else { b.len() }, |i: int| (a[i], b[i]))
}

fn zip_exec(a: &Vec<char>, b: &Vec<char>) -> (r: Vec<(char, char)>)
    ensures
        r@ == zip_chars(a@, b@),
{
    let n = if a.len() <= b.len() {
        a.len()
    } else {
        b.len()
    };
    let mut r: Vec<(char, char)> = Vec::new();
    let mut i: usize = 0;
    while i < n
        invariant
            n <= a.len(),
            n <= b.len(),
            i <= n,
            r@ == zip_chars(a@, b@).take(i as int),
        decreases n - i,
    {
        r.push((a[i], b[i]));
        i = i + 1;
        assert(r@ =~= zip_chars(a@, b@).take(i as int));
    }
    assert(zip_chars(a@, b@).take(n as int) =~= zip_chars(a@, b@));
    r
}

fn append_pairs(a: &mut Vec<(char, char)>, b: &Vec<(char, char)>)
    ensures
        final(a)@ == old(a)@ + b@,
{
    let mut i: usize = 0;
    while i < b.len()
        invariant
            i <= b.len(),
            a@ == old(a)@ + b@.take(i as int),
        decreases b.len() - i,
    {
        a.push(b[i]);
        i = i + 1;
        assert(a@ =~= old(a)@ + b@.take(i as int));
    }
    assert(b@.take(b.len() as int) =~= b@);
}

/// The keys of a swap table: all keys in order, the keyboard keys that are free
/// to take a Cangjie key (`fromchars`), the Cangjie keys to be placed
/// (`tochars`), the pairs fixed in advance, and the blacklist pairs.
#[derive(Debug)]
pub struct SwapDictChars {
    pub allchars: Vec<char>,
    pub fromchars: Vec<char>,
    pub tochars: Vec<char>,
    pub predefined: CharMap,
    pub blacklist_to_from: CharMap,
}

/// The swap table of `allkeys`, of a swap dictionary and of a blacklist: all
/// keys sorted; the fixed pairs are the first characters of the swap
/// dictionary's entries; a key that a fixed pair or the blacklist takes is no
/// longer free.
pub open spec fn made_from(
    r: SwapDictChars,
    allkeys: Seq<char>,
    swap: Seq<(Seq<char>, Seq<char>)>,
    bf: Seq<char>,
    bt: Seq<char>,
) -> bool {
    &&& r.allchars@ == sort_chars(allkeys)
    &&& r.predefined@ == cmap::cput_all(first_char_pairs(swap))
    &&& cmap::cunique(r.predefined@)
    &&& r.blacklist_to_from@ == cmap::cput_all(zip_chars(bt, bf))
    &&& r.tochars@ == keep_out(sort_chars(allkeys), values_of(r.predefined@), bt)
    &&& r.fromchars@ == keep_out(sort_chars(allkeys), keys_of(r.predefined@), bf)
}

impl SwapDictChars {
    /// The swap table of `allkeys`: all keys sorted; the fixed pairs are the
    /// first characters of the swap dictionary's entries; a key that a fixed
    /// pair or the blacklist takes is no longer free.
    pub fn new(allkeys: &str, swap: &SwapKeyDict, blacklist_from: &str, blacklist_to: &str) -> (r:
        Self)
        requires
            text::byte_len(blacklist_from@) == text::byte_len(blacklist_to@),
        ensures
            made_from(r, allkeys@, kt::sd_view(swap@), blacklist_from@, blacklist_to@),
    {
        let from = chars_of(blacklist_from);
        let to = chars_of(blacklist_to);
        let blacklist_map = cmap_from(&zip_exec(&to, &from));
        let predefined = first_char_table(swap);
        let allchars = sorted_chars(&chars_of(allkeys));
        let tobans = keys_exec(&predefined, true);
        let frombans = keys_exec(&predefined, false);
        let tochars = keep_out_exec(&allchars, &tobans, &to);
        let fromchars = keep_out_exec(&allchars, &frombans, &from);
        SwapDictChars { allchars, fromchars, tochars, predefined, blacklist_to_from: blacklist_map }
    }

    /// The place of `c` among all keys.
    pub fn index(&self, c: char) -> (r: Option<usize>)
        ensures
            match r {
                Some(i) => i < self.allchars@.len() && self.allchars@[i as int] == c && forall|j: int|
                    0 <= j < i ==> self.allchars@[j] != c,
                None => !self.allchars@.contains(c),
            },
    {
        let mut i: usize = 0;
        while i < self.allchars.len()
            invariant
                i <= self.allchars.len(),
                forall|j: int| 0 <= j < i ==> self.allchars@[j] != c,
            decreases self.allchars.len() - i,
        {
            if self.allchars[i] == c {
                return Some(i);
            }
            i = i + 1;
        }
        None
    }

    /// The key at place `i`.
    pub fn char_by_index(&self, i: usize) -> (r: Option<char>)
        ensures
            r == if i < self.allchars@.len() {
                Some(self.allchars@[i as int])
            } else {
                None::<char>
            },
    {
        if i < self.allchars.len() {
            Some(self.allchars[i])
        } else {
            None
        }
    }

    /// The swap table of a permutation: the free keyboard keys paired in order
    /// with the permuted Cangjie keys, then the fixed pairs, a later pair of a
    /// key replacing an earlier one.
    pub fn restruct_swap_dict(&self, perm: &Vec<char>) -> (r: CharMap)
        ensures
            r@ == cmap::cput_all(zip_chars(self.fromchars@, perm@) + self.predefined@),
            cmap::cunique(r@),
    {
        let mut pairs = zip_exec(&self.fromchars, perm);
        append_pairs(&mut pairs, &self.predefined);
        cmap_from(&pairs)
    }
}

/// The swap table of a permutation of `keys`, then the fixed pairs.
pub fn restruct_swap_dict(perm: &Vec<char>, predefined: &CharMap, keys: &Vec<char>) -> (r: CharMap)
    ensures
        r@ == cmap::cput_all(zip_chars(keys@, perm@) + predefined@),
{
    let mut pairs = zip_exec(keys, perm);
    append_pairs(&mut pairs, predefined);
    cmap_from(&pairs)
}


/// Places `x` before the first entry of a larger score (a stable insertion).
pub open spec fn insert_scored<T>(s: Seq<(usize, T)>, x: (usize, T)) -> Seq<(usize, T)>
    decreases s.len(),
{
    if s.len() == 0 {
        seq![x]
    } else if x.0 < s[0].0 {
        seq![x] + s
    } else {
        seq![s[0]] + insert_scored(s.skip(1), x)
    }
}

/// The entries ordered by score, entries of equal score in their first order
/// (`sort_by_key` on the score).
pub open spec fn sort_scored<T>(s: Seq<(usize, T)>) -> Seq<(usize, T)>
    decreases s.len(),
{
    if s.len() == 0 {
        seq![]
    } else {
        insert_scored(sort_scored(s.drop_last()), s.last())
    }
}

pub open spec fn scores_sorted<T>(s: Seq<(usize, T)>) -> bool {
    forall|i: int, j: int| 0 <= i < j < s.len() ==> (#[trigger] s[i]).0 <= (#[trigger] s[j]).0
}

proof fn lemma_insert_scored_at<T>(s: Seq<(usize, T)>, x: (usize, T), p: int)
    requires
        0 <= p <= s.len(),
        forall|j: int| 0 <= j < p ==> !(x.0 < (#[trigger] s[j]).0),
        p < s.len() ==> x.0 < s[p].0,
    ensures
        insert_scored(s, x) == s.take(p) + seq![x] + s.skip(p),
    decreases s.len(),
{
    if s.len() == 0 {
        assert(s.take(p) + seq![x] + s.skip(p) =~= seq![x]);
    } else if p == 0 {
        assert(s.take(p) + seq![x] + s.skip(p) =~= seq![x] + s);
    } else {
        let t = s.skip(1);
        assert forall|j: int| 0 <= j < p - 1 implies !(x.0 < (#[trigger] t[j]).0) by {
            assert(t[j] == s[j + 1]);
        }
        lemma_insert_scored_at(t, x, p - 1);
        assert(seq![s[0]] + (t.take(p - 1) + seq![x] + t.skip(p - 1)) =~= s.take(p) + seq![x]
            + s.skip(p));
    }
}

proof fn lemma_insert_scored<T>(s: Seq<(usize, T)>, x: (usize, T))
    requires
        scores_sorted(s),
    ensures
        scores_sorted(insert_scored(s, x)),
        insert_scored(s, x).to_multiset() == s.to_multiset().insert(x),
    decreases s.len(),
{
    broadcast use vstd::multiset::group_multiset_axioms, vstd::seq_lib::group_to_multiset_ensures;

    let r = insert_scored(s, x);
    if s.len() == 0 {
        assert(r =~= seq![x]);
        assert(seq![x] =~= Seq::<(usize, T)>::empty().push(x));
    } else if x.0 < s[0].0 {
        assert forall|i: int, j: int| 0 <= i < j < r.len() implies (#[trigger] r[i]).0 <= (
        #[trigger] r[j]).0 by {
            if i == 0 {
                assert(s[0].0 <= s[j - 1].0 || j - 1 == 0);
            }
        }
        vstd::seq_lib::lemma_multiset_commutative(seq![x], s);
        assert(seq![x] =~= Seq::<(usize, T)>::empty().push(x));
    } else {
        let t = s.skip(1);
        assert forall|i: int, j: int| 0 <= i < j < t.len() implies (#[trigger] t[i]).0 <= (
        #[trigger] t[j]).0 by {
            assert(t[i] == s[i + 1] && t[j] == s[j + 1]);
        }
        lemma_insert_scored(t, x);
        let it = insert_scored(t, x);
        assert(r == seq![s[0]] + it);
        assert forall|k: int| 0 <= k < it.len() implies s[0].0 <= (#[trigger] it[k]).0 by {
            assert(it.to_multiset().count(it[k]) > 0);
            assert(t.to_multiset().insert(x).count(it[k]) > 0);
            if it[k] != x {
                assert(t.to_multiset().count(it[k]) > 0);
                assert(t.contains(it[k]));
                let q = choose|q: int| 0 <= q < t.len() && t[q] == it[k];
                assert(s[q + 1] == t[q]);
            }
        }
        assert forall|i: int, j: int| 0 <= i < j < r.len() implies (#[trigger] r[i]).0 <= (
        #[trigger] r[j]).0 by {
            if i == 0 {
                assert(r[j] == it[j - 1]);
            } else {
                assert(r[i] == it[i - 1] && r[j] == it[j - 1]);
            }
        }
        vstd::seq_lib::lemma_multiset_commutative(seq![s[0]], it);
        vstd::seq_lib::lemma_multiset_commutative(seq![s[0]], t);
        assert(seq![s[0]] + t =~= s);
    }
}

/// Entries sorted by score are in order of score and are the same entries.
pub proof fn lemma_sort_scored<T>(s: Seq<(usize, T)>)
    ensures
        scores_sorted(sort_scored(s)),
        sort_scored(s).to_multiset() == s.to_multiset(),
    decreases s.len(),
{
    broadcast use vstd::multiset::group_multiset_axioms, vstd::seq_lib::group_to_multiset_ensures;

    if s.len() > 0 {
        lemma_sort_scored(s.drop_last());
        lemma_insert_scored(sort_scored(s.drop_last()), s.last());
        assert(s.drop_last().push(s.last()) =~= s);
    }
}

/// Sorts entries by score, keeping the order of entries of equal score.
pub fn sort_by_score<T>(v: Vec<(usize, T)>) -> (r: Vec<(usize, T)>)
    ensures
        r@ == sort_scored(v@),
{
    let mut v = v;
    let ghost v0 = v@;
    let mut r: Vec<(usize, T)> = Vec::new();
    while v.len() > 0
        invariant
            v.len() <= v0.len(),
            v@ == v0.skip(v0.len() - v.len()),
            r@ == sort_scored(v0.take(v0.len() - v.len())),
        decreases v.len(),
    {
        let ghost k = v0.len() - v.len();
        let ghost vv = v@;
        let x = v.remove(0);
        proof {
            assert(vv[0] == v0[k]);
            assert(v@ =~= v0.skip(k + 1));
            assert(v0.take(k + 1).drop_last() =~= v0.take(k));
            assert(v0.take(k + 1).last() == x);
        }
        let mut p: usize = 0;
        while p < r.len() && !(x.0 < r[p].0)
            invariant
                p <= r.len(),
                forall|j: int| 0 <= j < p ==> !(x.0 < (#[trigger] r@[j]).0),
            decreases r.len() - p,
        {
            p = p + 1;
        }
        proof {
            lemma_insert_scored_at(r@, x, p as int);
        }
        let ghost r0 = r@;
        r.insert(p, x);
        assert(r@ =~= r0.take(p as int) + seq![x] + r0.skip(p as int));
    }
    assert(v0.take(v0.len() as int) =~= v0);
    r
}


/// A permutation with its score.
pub type ScoredPerm = (usize, Vec<char>);

pub open spec fn scored_view(s: Seq<(usize, Vec<char>)>) -> Seq<(usize, Seq<char>)> {
    s.map_values(|e: (usize, Vec<char>)| (e.0, e.1@))
}

/// Number of leading entries of score `v`.
pub open spec fn same_score_prefix<T>(s: Seq<(usize, T)>, v: usize) -> nat
    decreases s.len(),
{
    if s.len() == 0 || s[0].0 != v {
        0
    } else {
        1 + same_score_prefix(s.skip(1), v)
    }
}

/// What a round of scored permutations comes to: the results ordered by
/// score, the best score, the permutations that reach it, and whether to go on
/// (while the best score is above the goal).
pub struct PermRound {
    pub data: Vec<ScoredPerm>,
    pub top_score: Option<usize>,
    pub efficient: Vec<Vec<char>>,
    pub go_on: bool,
}

pub open spec fn scored_of(results: Seq<(Vec<char>, usize)>) -> Seq<(usize, Vec<char>)> {
    results.map_values(|e: (Vec<char>, usize)| (e.1, e.0))
}

/// Orders a round of scored permutations and picks the best of them.
pub fn perm_round(results: Vec<(Vec<char>, usize)>, nonchain_goal: usize) -> (r: PermRound)
    ensures
        r.data@ == sort_scored(scored_of(results@)),
        r.top_score == (if results.len() == 0 {
            None::<usize>
        } else {
            Some(sort_scored(scored_of(results@))[0].0)
        }),
        r.efficient@.map_values(|v: Vec<char>| v@) == (if results.len() == 0 {
            Seq::<Seq<char>>::empty()
        } else {
            let s = sort_scored(scored_of(results@));
            s.take(same_score_prefix(s, s[0].0) as int).map_values(|e: (usize, Vec<char>)| e.1@)
        }),
        r.go_on == match r.top_score {
            Some(t) => t > nonchain_goal,
            None => true,
        },
{
    let ghost sc = scored_of(results@);
    let mut keyed: Vec<(usize, Vec<char>)> = Vec::new();
    let mut results = results;
    let ghost r0 = results@;
    while results.len() > 0
        invariant
            results.len() <= r0.len(),
            results@ == r0.skip(r0.len() - results.len()),
            keyed@ == scored_of(r0.take(r0.len() - results.len())),
        decreases results.len(),
    {
        let ghost k = r0.len() - results.len();
        let ghost rv = results@;
        let (perm, score) = results.remove(0);
        proof {
            assert(rv[0] == r0[k]);
            assert(results@ =~= r0.skip(k + 1));
        }
        keyed.push((score, perm));
        assert(keyed@ =~= scored_of(r0.take(k + 1)));
    }
    assert(r0.take(r0.len() as int) =~= r0);
    proof {
        lemma_sort_scored(sc);
        assert(sort_scored(sc).len() == sc.len()) by {
            broadcast use vstd::seq_lib::group_to_multiset_ensures;

            assert(sort_scored(sc).to_multiset().len() == sc.to_multiset().len());
        }
    }
    let data = sort_by_score(keyed);
    let ghost sd = data@;
    if data.len() == 0 {
        return PermRound { data, top_score: None, efficient: Vec::new(), go_on: true };
    }
    let top = data[0].0;
    let mut efficient: Vec<Vec<char>> = Vec::new();
    let mut i: usize = 0;
    assert(sd.skip(0) =~= sd);
    while i < data.len() && data[i].0 == top
        invariant
            sd == data@,
            top == sd[0].0,
            i <= data.len(),
            same_score_prefix(sd, top) == i + same_score_prefix(sd.skip(i as int), top),
            efficient@.map_values(|v: Vec<char>| v@) == sd.take(i as int).map_values(
                |e: (usize, Vec<char>)| e.1@,
            ),
        decreases data.len() - i,
    {
        proof {
            assert(sd.skip(i as int)[0] == sd[i as int]);
            assert(sd.skip(i as int).skip(1) =~= sd.skip(i + 1));
        }
        let ghost e0 = efficient@.map_values(|v: Vec<char>| v@);
        let p = data[i].1.clone();
        assert(p@ =~= sd[i as int].1@);
        efficient.push(p);
        assert(efficient@.map_values(|v: Vec<char>| v@) =~= e0.push(sd[i as int].1@));
        i = i + 1;
        assert(efficient@.map_values(|v: Vec<char>| v@) =~= sd.take(i as int).map_values(
            |e: (usize, Vec<char>)| e.1@,
        ));
    }
    proof {
        if i < data.len() {
            assert(sd.skip(i as int)[0] == sd[i as int]);
        }
    }
    PermRound { data, top_score: Some(top), efficient, go_on: top > nonchain_goal }
}

/// The line of a scored permutation: the score, a tab and the permutation.
pub open spec fn score_line(e: (usize, Seq<char>)) -> Seq<char> {
    text::decimal(e.0 as nat) + seq!['\t'] + e.1
}

/// The text of scored permutations: a line each, and a final line feed.
pub open spec fn scores_text(d: Seq<(usize, Seq<char>)>) -> Seq<char> {
    out::join(d.map_values(|e: (usize, Seq<char>)| score_line(e)), seq!['\n']) + seq!['\n']
}

/// Writes scored permutations, a line each.
pub fn scored_perms_tostring(data: &Vec<ScoredPerm>) -> (s: String)
    ensures
        s@ == scores_text(scored_view(data@)),
{
    let ghost dv = scored_view(data@);
    let mut ls: Vec<Vec<char>> = Vec::new();
    let mut i: usize = 0;
    while i < data.len()
        invariant
            i <= data.len(),
            dv == scored_view(data@),
            ls.deep_view() == dv.take(i as int).map_values(|e: (usize, Seq<char>)| score_line(e)),
        decreases data.len() - i,
    {
        let mut l = decimal_chars(data[i].0 as u64);
        l.push('\t');
        text::push_all(&mut l, &data[i].1);
        assert(l@ =~= score_line(dv[i as int]));
        let ghost d = ls.deep_view();
        proof {
            text::lemma_chars_deep_view(&l);
        }
        ls.push(l);
        assert(ls.deep_view() =~= d.push(score_line(dv[i as int])));
        i = i + 1;
        assert(dv.take(i as int).map_values(|e: (usize, Seq<char>)| score_line(e)) =~= d.push(
            score_line(dv[i - 1]),
        ));
    }
    assert(dv.take(data.len() as int) =~= dv);
    let mut nl: Vec<char> = Vec::new();
    nl.push('\n');
    assert(nl@ =~= seq!['\n']);
    let mut r = out::join_chars(&ls, &nl);
    r.push('\n');
    string_of(&r)
}

/// The scored permutations that lines hold: in each line, the score before
/// the first tab and the permutation up to the next; a line without a score
/// or without a permutation holds none.
pub open spec fn scores_of_lines(ls: Seq<Seq<char>>) -> Seq<(usize, Seq<char>)>
    decreases ls.len(),
{
    if ls.len() == 0 {
        seq![]
    } else {
        let ps = text::pieces(ls.last(), '\t');
        scores_of_lines(ls.drop_last()) + match text::usize_of(ps[0]) {
            Some(n) => if ps.len() >= 2 {
                seq![(n as usize, ps[1])]
            } else {
                Seq::<(usize, Seq<char>)>::empty()
            },
            None => Seq::<(usize, Seq<char>)>::empty(),
        }
    }
}

/// Reads scored permutations from their text.
pub fn parse_score_perms(src: &str) -> (r: Vec<ScoredPerm>)
    ensures
        scored_view(r@) == scores_of_lines(text::lines(src@)),
{
    let ls = lines_of(src);
    let ghost lv = text::strs(ls@);
    let mut r: Vec<ScoredPerm> = Vec::new();
    let mut i: usize = 0;
    while i < ls.len()
        invariant
            i <= ls.len(),
            lv == text::strs(ls@),
            scored_view(r@) == scores_of_lines(lv.take(i as int)),
        decreases ls.len() - i,
    {
        proof {
            assert(lv.take(i + 1).drop_last() =~= lv.take(i as int));
        }
        let l = chars_of(ls[i].as_str());
        let ps = split_pieces(&l, '\t');
        assert(ps.deep_view().len() > 0);
        assert(ps@.len() == ps.deep_view().len());
        proof {
            text::lemma_chars_deep_view(&ps@[0]);
            assert(ps.deep_view()[0] == ps@[0].deep_view());
        }
        let ghost r0 = scored_view(r@);
        match parse_usize(&ps[0]) {
            Some(n) => {
                if ps.len() >= 2 {
                    proof {
                        text::lemma_chars_deep_view(&ps@[1]);
                        assert(ps.deep_view()[1] == ps@[1].deep_view());
                    }
                    r.push((n, ps[1].clone()));
                    assert(scored_view(r@) =~= r0.push((n, ps@[1]@)));
                }
            },
            None => {},
        }
        i = i + 1;
        assert(scored_view(r@) =~= scores_of_lines(lv.take(i as int)));
    }
    assert(lv.take(ls.len() as int) =~= lv);
    r
}

/// A permutation that its score line keeps apart: no tab, line feed or
/// carriage return.
pub open spec fn perm_plain(p: Seq<char>) -> bool {
    !p.contains('\t') && !p.contains('\n') && !p.contains('\r')
}

/// Reading the text of scored permutations gives them back.
pub proof fn lemma_scores_roundtrip(d: Seq<(usize, Seq<char>)>)
    requires
        forall|i: int| 0 <= i < d.len() ==> perm_plain(#[trigger] d[i].1),
    ensures
        scores_of_lines(text::lines(scores_text(d))) == d,
{
    let ls = d.map_values(|e: (usize, Seq<char>)| score_line(e));
    if d.len() == 0 {
        let x = scores_text(d);
        assert(ls =~= Seq::<Seq<char>>::empty());
        assert(x =~= seq!['\n']);
        assert(x.drop_last() =~= Seq::<char>::empty());
        assert(text::piece_state(x.drop_last(), '\n') == (
            Seq::<Seq<char>>::empty(),
            Seq::<char>::empty(),
        ));
        assert(text::piece_state(x, '\n').0 =~= seq![Seq::<char>::empty()]);
        assert(text::piece_state(x, '\n').1 =~= Seq::<char>::empty());
        let l = text::lines(x);
        assert(l =~= seq![Seq::<char>::empty()]);
        assert(text::piece_state(Seq::<char>::empty(), '\t') == (
            Seq::<Seq<char>>::empty(),
            Seq::<char>::empty(),
        ));
        assert(text::pieces(Seq::<char>::empty(), '\t') =~= seq![Seq::<char>::empty()]);
        assert(l.drop_last() =~= Seq::<Seq<char>>::empty());
        assert(text::usize_of(Seq::<char>::empty()) is None);
        assert(scores_of_lines(l.drop_last()) =~= Seq::<(usize, Seq<char>)>::empty());
        assert(scores_of_lines(l) =~= d);
    } else {
        assert forall|i: int| 0 <= i < ls.len() implies !(#[trigger] ls[i]).contains('\n')
            && text::strip_cr(ls[i]) == ls[i] by {
            let dd = text::decimal(d[i].0 as nat);
            text::lemma_usize_of_decimal(d[i].0 as nat);
            assert(ls[i] == dd + seq!['\t'] + d[i].1);
            if ls[i].contains('\n') {
                let k = choose|k: int| 0 <= k < ls[i].len() && ls[i][k] == '\n';
                if k < dd.len() {
                    assert(text::is_ascii_digit(dd[k]));
                } else if k > dd.len() {
                    assert(d[i].1[k - dd.len() - 1] == '\n');
                }
            }
            if ls[i].len() > 0 && ls[i].last() == '\r' {
                if d[i].1.len() > 0 {
                    assert(d[i].1[d[i].1.len() - 1] == '\r');
                }
            }
        }
        out::lemma_lines_join(ls);
        lemma_scores_of_score_lines(d);
    }
}

proof fn lemma_scores_of_score_lines(d: Seq<(usize, Seq<char>)>)
    requires
        forall|i: int| 0 <= i < d.len() ==> perm_plain(#[trigger] d[i].1),
    ensures
        scores_of_lines(d.map_values(|e: (usize, Seq<char>)| score_line(e))) == d,
    decreases d.len(),
{
    if d.len() > 0 {
        let ls = d.map_values(|e: (usize, Seq<char>)| score_line(e));
        lemma_scores_of_score_lines(d.drop_last());
        assert(ls.drop_last() =~= d.drop_last().map_values(|e: (usize, Seq<char>)| score_line(e)));
        let e = d.last();
        assert(perm_plain(d[d.len() - 1].1));
        let dd = text::decimal(e.0 as nat);
        text::lemma_usize_of_decimal(e.0 as nat);
        assert(!dd.contains('\t')) by {
            if dd.contains('\t') {
                let k = choose|k: int| 0 <= k < dd.len() && dd[k] == '\t';
                assert(text::is_ascii_digit(dd[k]));
            }
        }
        text::lemma_pieces_sep(dd, '\t', e.1);
        text::lemma_pieces_word(dd, '\t');
        assert(text::pieces(ls.last(), '\t') =~= seq![dd, e.1]);
        assert(d.drop_last() + seq![(e.0, e.1)] =~= d);
    }
}

/// The Cangjie radical of each keyboard key.
pub open spec fn radical(c: char) -> Option<char> {
    if c == 'q' {
        Some('手')
    } else if c == 'w' {
        Some('田')
    } else if c == 'e' {
        Some('水')
    } else if c == 'r' {
        Some('口')
    } else if c == 't' {
        Some('廿')
    } else if c == 'y' {
        Some('卜')
    } else if c == 'u' {
        Some('山')
    } else if c == 'i' {
        Some('戈')
    } else if c == 'o' {
        Some('人')
    } else if c == 'p' {
        Some('心')
    } else if c == 'a' {
        Some('日')
    } else if c == 's' {
        Some('尸')
    } else if c == 'd' {
        Some('木')
    } else if c == 'f' {
        Some('火')
    } else if c == 'g' {
        Some('土')
    } else if c == 'h' {
        Some('竹')
    } else if c == 'j' {
        Some('十')
    } else if c == 'k' {
        Some('乂')
    } else if c == 'l' {
        Some('中')
    } else if c == 'z' {
        Some('！')
    } else if c == 'x' {
        Some('難')
    } else if c == 'c' {
        Some('金')
    } else if c == 'b' {
        Some('月')
    } else if c == 'm' {
        Some('一')
    } else if c == 'n' {
        Some('弓')
    } else if c == 'v' {
        Some('女')
    } else {
        None
    }
}

fn radical_of(c: char) -> (r: Option<char>)
    ensures
        r == radical(c),
{
    match c {
        'q' => Some('手'),
        'w' => Some('田'),
        'e' => Some('水'),
        'r' => Some('口'),
        't' => Some('廿'),
        'y' => Some('卜'),
        'u' => Some('山'),
        'i' => Some('戈'),
        'o' => Some('人'),
        'p' => Some('心'),
        'a' => Some('日'),
        's' => Some('尸'),
        'd' => Some('木'),
        'f' => Some('火'),
        'g' => Some('土'),
        'h' => Some('竹'),
        'j' => Some('十'),
        'k' => Some('乂'),
        'l' => Some('中'),
        'z' => Some('！'),
        'x' => Some('難'),
        'c' => Some('金'),
        'b' => Some('月'),
        'm' => Some('一'),
        'n' => Some('弓'),
        'v' => Some('女'),
        _ => None,
    }
}

/// The three rows of the keyboard drawing, a space between the hands.
pub open spec fn keyboard_rows() -> Seq<Seq<char>> {
    seq![
        seq!['q', 'w', 'e', 'r', 't', ' ', 'y', 'u', 'i', 'o', 'p'],
        seq!['a', 's', 'd', 'f', 'g', ' ', 'h', 'j', 'k', 'l'],
        seq![' ', 'z', 'x', 'c', ' ', 'b', ' ', 'm', 'n', 'v'],
    ]
}

/// What a place of the drawing shows: the radical of the Cangjie key that the
/// keyboard key types, or a full-width space.
pub open spec fn board_cell(m: Seq<(char, char)>, c: char) -> char {
    match cmap::cget(m, c) {
        Some(cj) => match radical(cj) {
            Some(z) => z,
            None => '　',
        },
        None => '　',
    }
}

/// The drawing of a layout from keyboard keys to Cangjie keys: the keyboard
/// rows, each key showing its radical.
pub open spec fn board_text(m: Seq<(char, char)>) -> Seq<char> {
    out::join(
        keyboard_rows().map_values(|row: Seq<char>| row.map_values(|c: char| board_cell(m, c))),
        seq!['\n'],
    )
}

fn board_row(m: &CharMap, row: &Vec<char>) -> (r: Vec<char>)
    ensures
        r@ == row@.map_values(|c: char| board_cell(m@, c)),
{
    let mut r: Vec<char> = Vec::new();
    let mut i: usize = 0;
    while i < row.len()
        invariant
            i <= row.len(),
            r@ == row@.take(i as int).map_values(|c: char| board_cell(m@, c)),
        decreases row.len() - i,
    {
        let cell = match cvalue(m, row[i]) {
            Some(cj) => match radical_of(cj) {
                Some(z) => z,
                None => '　',
            },
            None => '　',
        };
        r.push(cell);
        i = i + 1;
        assert(r@ =~= row@.take(i as int).map_values(|c: char| board_cell(m@, c)));
    }
    assert(row@.take(row.len() as int) =~= row@);
    r
}

/// Draws a layout from keyboard keys to Cangjie keys on the keyboard rows.
pub fn swap_table_literal_tostring(keytocjchar: &CharMap) -> (s: String)
    ensures
        s@ == board_text(keytocjchar@),
{
    let row0 = vec!['q', 'w', 'e', 'r', 't', ' ', 'y', 'u', 'i', 'o', 'p'];
    let row1 = vec!['a', 's', 'd', 'f', 'g', ' ', 'h', 'j', 'k', 'l'];
    let row2 = vec![' ', 'z', 'x', 'c', ' ', 'b', ' ', 'm', 'n', 'v'];
    assert(row0@ =~= keyboard_rows()[0]);
    assert(row1@ =~= keyboard_rows()[1]);
    assert(row2@ =~= keyboard_rows()[2]);
    let mut rows: Vec<Vec<char>> = Vec::new();
    let a = board_row(keytocjchar, &row0);
    let b = board_row(keytocjchar, &row1);
    let c = board_row(keytocjchar, &row2);
    proof {
        text::lemma_chars_deep_view(&a);
        text::lemma_chars_deep_view(&b);
        text::lemma_chars_deep_view(&c);
    }
    rows.push(a);
    rows.push(b);
    rows.push(c);
    assert(rows.deep_view() =~= keyboard_rows().map_values(
        |row: Seq<char>| row.map_values(|c: char| board_cell(keytocjchar@, c)),
    ));
    let mut nl: Vec<char> = Vec::new();
    nl.push('\n');
    assert(nl@ =~= seq!['\n']);
    string_of(&out::join_chars(&rows, &nl))
}

/// Draws a swap table (Cangjie keys to keyboard keys) on the keyboard rows:
/// each keyboard key shows the radical of the Cangjie key put on it.
pub fn swap_table_tostring(swap_table: &CharMap) -> (s: String)
    ensures
        s@ == board_text(cmap::cput_all(cmap::flipped(swap_table@))),
{
    let flipped = cmap_from(&cmap::flip_pairs(swap_table));
    swap_table_literal_tostring(&flipped)
}


/// The keys of the keyboard, row by row.
pub open spec fn keyboard_keys() -> Seq<char> {
    seq![
        'q', 'w', 'e', 'r', 't', 'y', 'u', 'i', 'o', 'p', 'a', 's', 'd', 'f', 'g', 'h', 'j', 'k', 'l',
        'z', 'x', 'c', 'b', 'm', 'n', 'v',
    ]
}

fn keyboard() -> (r: Vec<char>)
    ensures
        r@ == keyboard_keys(),
{
    let r = vec![
        'q', 'w', 'e', 'r', 't', 'y', 'u', 'i', 'o', 'p', 'a', 's', 'd', 'f', 'g', 'h', 'j', 'k', 'l',
        'z', 'x', 'c', 'b', 'm', 'n', 'v',
    ];
    assert(r@ =~= keyboard_keys());
    r
}

/// The swap table of the keyboard keys under a swap dictionary, with the
/// blacklist that keeps `z` from `a`.
pub fn default_swapdictchars(swap: &SwapKeyDict) -> (r: SwapDictChars)
    ensures
        made_from(r, keyboard_keys(), kt::sd_view(swap@), seq!['z'], seq!['a']),
{
    let keys = string_of(&keyboard());
    proof {
        reveal_strlit("z");
        reveal_strlit("a");
        assert("z"@ =~= seq!['z']);
        assert("a"@ =~= seq!['a']);
        text::lemma_byte_len_one("z"@);
        text::lemma_byte_len_one("a"@);
    }
    SwapDictChars::new(keys.as_str(), swap, "z", "a")
}

/// The check lines of scored permutations: for each, a line with an arrow, the
/// score and the permutation, then the drawing of its swap table.
pub open spec fn quickcheck_of(sdc: SwapDictChars, items: Seq<(usize, Seq<char>)>) -> Seq<char>
    decreases items.len(),
{
    if items.len() == 0 {
        seq![]
    } else {
        let (score, perm) = items.last();
        quickcheck_of(sdc, items.drop_last()) + seq!['↓', ' '] + text::decimal(score as nat) + seq![
            ' ',
        ] + perm + seq!['\n'] + board_text(
            cmap::cput_all(
                cmap::flipped(cmap::cput_all(zip_chars(sdc.fromchars@, perm) + sdc.predefined@)),
            ),
        ) + seq!['\n']
    }
}

/// The check text of scored permutations read from `src`.
pub fn swap_table_quickcheck_text(swap: &SwapDictChars, src: &str) -> (s: String)
    ensures
        s@ == quickcheck_of(*swap, scores_of_lines(text::lines(src@))),
{
    let sp = parse_score_perms(src);
    let ghost items = scored_view(sp@);
    let mut r: Vec<char> = Vec::new();
    let mut i: usize = 0;
    while i < sp.len()
        invariant
            i <= sp.len(),
            items == scored_view(sp@),
            r@ == quickcheck_of(*swap, items.take(i as int)),
        decreases sp.len() - i,
    {
        proof {
            assert(items.take(i + 1).drop_last() =~= items.take(i as int));
        }
        let table = swap.restruct_swap_dict(&sp[i].1);
        let pretty = swap_table_tostring(&table);
        r.push('↓');
        r.push(' ');
        text::push_all(&mut r, &decimal_chars(sp[i].0 as u64));
        r.push(' ');
        text::push_all(&mut r, &sp[i].1);
        r.push('\n');
        text::push_all(&mut r, &chars_of(pretty.as_str()));
        r.push('\n');
        i = i + 1;
    }
    assert(items.take(sp.len() as int) =~= items);
    string_of(&r)
}

/// The permutations that `itertools` yields first, as a function of the items
/// and of how many are taken.
pub uninterp spec fn permutations_taken(items: Seq<char>, n: usize) -> Seq<Seq<char>>;

/// `n!`
pub open spec fn factorial(n: nat) -> nat
    decreases n,
{
    if n == 0 {
        1
    } else {
        n * factorial((n - 1) as nat)
    }
}

/// The smaller of two numbers.
pub open spec fn min_nat(a: nat, b: nat) -> nat {
    if a <= b {
        a
    } else {
        b
    }
}

/// Calls `Itertools::permutations` on the items, with the number of items as
/// the length, takes the first `n` permutations and collects them. Stated:
/// the result is the named sequence of those permutations; the crate yields
/// every arrangement of the items' places once, the items in their own order
/// first, so there are `min(n, k!)` for `k` items, each a rearrangement of the
/// items, all different when the items are. Not stated: the order of the
/// later ones.
#[verifier::external_body]
fn first_permutations(items: &Vec<char>, n: usize) -> (r: Vec<Vec<char>>)
    ensures
        r.deep_view() == permutations_taken(items@, n),
        r.len() == min_nat(n as nat, factorial(items.len() as nat)),
        forall|i: int| 0 <= i < r.len() ==> (#[trigger] r@[i])@.to_multiset() == items@.to_multiset(),
        r.len() > 0 ==> r@[0]@ == items@,
        items@.no_duplicates() ==> forall|i: int, j: int|
            0 <= i < j < r.len() ==> (#[trigger] r@[i])@ != (#[trigger] r@[j])@,
{
    items.clone().into_iter().permutations(items.len()).take(n).collect()
}

/// The keyboard keys that the swap dictionary does not hold as keys.
pub open spec fn free_keys(swap: Seq<(Seq<char>, Seq<char>)>) -> Seq<char> {
    free_keys_of(keyboard_keys(), swap)
}

pub open spec fn free_keys_of(ks: Seq<char>, swap: Seq<(Seq<char>, Seq<char>)>) -> Seq<char>
    decreases ks.len(),
{
    if ks.len() == 0 {
        seq![]
    } else {
        free_keys_of(ks.drop_last(), swap) + if dict::lookup(swap, seq![ks.last()]) is None {
            seq![ks.last()]
        } else {
            Seq::<char>::empty()
        }
    }
}

fn free_keys_exec(swap: &SwapKeyDict) -> (r: Vec<char>)
    ensures
        r@ == free_keys(kt::sd_view(swap@)),
{
    let ks = keyboard();
    let mut r: Vec<char> = Vec::new();
    let mut i: usize = 0;
    while i < ks.len()
        invariant
            i <= ks.len(),
            ks@ == keyboard_keys(),
            r@ == free_keys_of(ks@.take(i as int), kt::sd_view(swap@)),
        decreases ks.len() - i,
    {
        proof {
            assert(ks@.take(i + 1).drop_last() =~= ks@.take(i as int));
        }
        let k = text::char_string(ks[i]);
        proof {
            assert forall|j: int| 0 <= j < swap@.len() implies #[trigger] dict::kview(swap@)[j].0
                == kt::sd_view(swap@)[j].0 by {}
            dict::lemma_same_keys(dict::kview(swap@), kt::sd_view(swap@), k@);
        }
        if dict::find_key(swap, &k).is_none() {
            r.push(ks[i]);
        }
        i = i + 1;
        assert(r@ =~= free_keys_of(ks@.take(i as int), kt::sd_view(swap@)));
    }
    assert(ks@.take(ks.len() as int) =~= ks@);
    r
}

/// The swap dictionaries of the first permutations of the free keyboard keys:
/// each free key keyed to the key that the permutation puts at its place. All
/// permutations without `takelen`.
pub fn perm_swap_table(swap: &SwapKeyDict, takelen: Option<usize>) -> (r: Vec<SwapKeyDict>)
    ensures
        ({
            let keys = free_keys(kt::sd_view(swap@));
            let perms = permutations_taken(
                keys,
                match takelen {
                    Some(n) => n,
                    None => usize::MAX,
                },
            );
            &&& r.len() == perms.len()
            &&& perms.len() == min_nat(
                match takelen {
                    Some(n) => n as nat,
                    None => usize::MAX as nat,
                },
                factorial(keys.len()),
            )
            &&& (perms.len() > 0 ==> perms[0] == keys)
            &&& forall|i: int|
                0 <= i < perms.len() ==> (#[trigger] perms[i]).to_multiset() == keys.to_multiset()
            &&& forall|i: int, j: int|
                0 <= i < j < perms.len() ==> #[trigger] perms[i] != #[trigger] perms[j]
            &&& forall|i: int|
                0 <= i < r.len() ==> kt::sd_view((#[trigger] r@[i])@) == dict::put_all(
                    repeat::char_swap_entries(zip_chars(keys, perms[i])),
                )
        }),
{
    let keys = free_keys_exec(swap);
    let n = match takelen {
        Some(n) => n,
        None => usize::MAX,
    };
    let perms = first_permutations(&keys, n);
    let ghost pv = perms.deep_view();
    proof {
        assert forall|i: int| 0 <= i < pv.len() implies (#[trigger] pv[i]) == perms@[i]@ by {
            text::lemma_chars_deep_view(&perms@[i]);
            assert(pv[i] == perms@[i].deep_view());
        }
        assert forall|i: int| 0 <= i < pv.len() implies (#[trigger] pv[i]).to_multiset()
            == keys@.to_multiset() by {
            assert(pv[i] == perms@[i]@);
        }
        lemma_keyboard_keys_distinct();
        lemma_free_keys_distinct(keyboard_keys(), kt::sd_view(swap@));
        assert(keys@ == free_keys(kt::sd_view(swap@)));
        assert(keys@.no_duplicates());
        assert forall|i: int, j: int| 0 <= i < j < pv.len() implies #[trigger] pv[i]
            != #[trigger] pv[j] by {
            assert(pv[i] == perms@[i]@ && pv[j] == perms@[j]@);
        }
    }
    let mut r: Vec<SwapKeyDict> = Vec::new();
    let mut i: usize = 0;
    while i < perms.len()
        invariant
            i <= perms.len(),
            pv == perms.deep_view(),
            r.len() == i,
            forall|q: int|
                0 <= q < i ==> kt::sd_view((#[trigger] r@[q])@) == dict::put_all(
                    repeat::char_swap_entries(zip_chars(keys@, pv[q])),
                ),
        decreases perms.len() - i,
    {
        proof {
            text::lemma_chars_deep_view(&perms@[i as int]);
            assert(pv[i as int] == perms@[i as int].deep_view());
        }
        let d = repeat::char_swap_dict(&zip_exec(&keys, &perms[i]));
        r.push(d);
        i = i + 1;
    }
    r
}


/// Sorting by score and changing what the entries carry commute.
pub proof fn lemma_sort_scored_map<T, U>(s: Seq<(usize, T)>, f: spec_fn(T) -> U)
    ensures
        sort_scored(s.map_values(|e: (usize, T)| (e.0, f(e.1)))) == sort_scored(s).map_values(
            |e: (usize, T)| (e.0, f(e.1)),
        ),
    decreases s.len(),
{
    let g = |e: (usize, T)| (e.0, f(e.1));
    if s.len() > 0 {
        lemma_sort_scored_map(s.drop_last(), f);
        assert(s.map_values(g).drop_last() =~= s.drop_last().map_values(g));
        lemma_insert_scored_map(sort_scored(s.drop_last()), s.last(), f);
    } else {
        assert(s.map_values(g) =~= Seq::<(usize, U)>::empty());
        assert(sort_scored(s).map_values(g) =~= Seq::<(usize, U)>::empty());
    }
}

proof fn lemma_insert_scored_map<T, U>(s: Seq<(usize, T)>, x: (usize, T), f: spec_fn(T) -> U)
    ensures
        insert_scored(s.map_values(|e: (usize, T)| (e.0, f(e.1))), (x.0, f(x.1))) == insert_scored(
            s,
            x,
        ).map_values(|e: (usize, T)| (e.0, f(e.1))),
    decreases s.len(),
{
    let g = |e: (usize, T)| (e.0, f(e.1));
    if s.len() == 0 {
        assert(insert_scored(s, x).map_values(g) =~= seq![(x.0, f(x.1))]);
    } else if x.0 < s[0].0 {
        assert(insert_scored(s, x).map_values(g) =~= seq![(x.0, f(x.1))] + s.map_values(g));
    } else {
        lemma_insert_scored_map(s.skip(1), x, f);
        assert(s.map_values(g).skip(1) =~= s.skip(1).map_values(g));
        assert(insert_scored(s, x).map_values(g) =~= seq![g(s[0])] + insert_scored(
            s.skip(1),
            x,
        ).map_values(g));
    }
}

/// The scored words under a swap dictionary, as a view.
pub type ScoredWords = (usize, Seq<(Seq<char>, out::SpecView)>);

/// The swap dictionary of a permutation of the keys, with the fixed pairs.
pub open spec fn perm_swap_dict(keys: Seq<char>, perm: Seq<char>, pre: Seq<(char, char)>) -> Seq<
    (Seq<char>, Seq<char>),
> {
    dict::put_all(repeat::char_swap_entries(cmap::cput_all(zip_chars(keys, perm) + pre)))
}

/// The scored words of the dictionary under a swap dictionary.
pub open spec fn scored_words(
    d: Seq<(String, Vec<crate::spell::SpecifySpelling>)>,
    sd: Seq<(Seq<char>, Seq<char>)>,
    sp: ShuangPinTables,
    fls: Seq<Seq<char>>,
) -> ScoredWords {
    (
        repeat::unchained_total(out::specify_all(d, sd, sp, fls)) as usize,
        out::specify_all(d, sd, sp, fls),
    )
}

pub type PermScored = (Vec<char>, (usize, Vec<(String, WithMakeWordSpecifier)>));

pub open spec fn perm_scored_view(e: PermScored) -> (Seq<char>, ScoredWords) {
    (e.0@, (e.1.0, out::wms_view(e.1.1@)))
}

/// The keys that a process permutes: the keyboard keys that no fixed pair takes as value.
pub open spec fn process_keys(pre: Seq<(char, char)>) -> Seq<char> {
    keep_out(keyboard_keys(), values_of(pre), Seq::<char>::empty())
}

/// The permutations of a process, each with its scored words, keyed by score.
pub open spec fn process_keyed(
    swap: Seq<(Seq<char>, Seq<char>)>,
    n: usize,
    d: Seq<(String, Vec<crate::spell::SpecifySpelling>)>,
    sp: ShuangPinTables,
    fls: Seq<Seq<char>>,
) -> Seq<(usize, (Seq<char>, ScoredWords))> {
    let pre = cmap::cput_all(first_char_pairs(swap));
    let keys = process_keys(pre);
    let perms = permutations_taken(keys, n);
    Seq::new(
        perms.len(),
        |i: int|
            {
                let sw = scored_words(d, perm_swap_dict(keys, perms[i], pre), sp, fls);
                (sw.0, (perms[i], sw))
            },
    )
}

/// The permutations that a process scores.
pub open spec fn process_perms(swap: Seq<(Seq<char>, Seq<char>)>, n: usize) -> Seq<Seq<char>> {
    permutations_taken(process_keys(cmap::cput_all(first_char_pairs(swap))), n)
}

/// The first permutations of the keys, counted and told apart: `min(n, k!)`
/// of them for `k` keys, the keys in their own order first, each a
/// rearrangement of the keys, no two the same.
pub open spec fn perms_counted(keys: Seq<char>, n: nat, perms: Seq<Seq<char>>) -> bool {
    &&& perms.len() == min_nat(n, factorial(keys.len()))
    &&& (perms.len() > 0 ==> perms[0] == keys)
    &&& forall|i: int| 0 <= i < perms.len() ==> (#[trigger] perms[i]).to_multiset() == keys.to_multiset()
    &&& forall|i: int, j: int| 0 <= i < j < perms.len() ==> #[trigger] perms[i] != #[trigger] perms[j]
}

/// Every permutation of the process can be scored.
pub open spec fn process_ready(
    swap: Seq<(Seq<char>, Seq<char>)>,
    n: usize,
    d: Seq<(String, Vec<crate::spell::SpecifySpelling>)>,
    sp: ShuangPinTables,
    fls: Seq<Seq<char>>,
) -> bool {
    let pre = cmap::cput_all(first_char_pairs(swap));
    let keys = process_keys(pre);
    let perms = permutations_taken(keys, n);
    forall|i: int|
        0 <= i < perms.len() ==> repeat::scoring_ready(
            d,
            perm_swap_dict(keys, #[trigger] perms[i], pre),
            sp,
            fls,
        )
}

/// Scores the first `takelen` permutations of the keyboard keys that no fixed
/// pair of the swap dictionary takes, each with the fixed pairs, and orders
/// them by score (fewest chain-breaking spells first). `None` when some
/// permutation cannot be scored.
pub fn perm_swap_table_process(
    swap: &SwapKeyDict,
    takelen_max: Result<usize, usize>,
    dict: &YongDictWordSpells,
    shuangpin: &ShuangPinTables,
    fluents: &Vec<String>,
) -> (r: Option<Vec<PermScored>>)
    requires
        takelen_max is Ok,
    ensures
        ({
            let n = takelen_max->Ok_0;
            let sd = kt::sd_view(swap@);
            perms_counted(
                process_keys(cmap::cput_all(first_char_pairs(sd))),
                n as nat,
                process_perms(sd, n),
            )
        }),
        ({
            let n = takelen_max->Ok_0;
            let keyed = process_keyed(kt::sd_view(swap@), n, dict@, *shuangpin, text::strs(fluents@));
            match r {
                Some(v) => process_ready(kt::sd_view(swap@), n, dict@, *shuangpin, text::strs(fluents@))
                    && v@.map_values(|e: PermScored| perm_scored_view(e)) == sort_scored(
                    keyed,
                ).map_values(|e: (usize, (Seq<char>, ScoredWords))| e.1),
                None => !process_ready(kt::sd_view(swap@), n, dict@, *shuangpin, text::strs(fluents@)),
            }
        }),
{
    let n = match takelen_max {
        Ok(n) => n,
        Err(_) => 0,
    };
    let ghost fls = text::strs(fluents@);
    let ghost keyed = process_keyed(kt::sd_view(swap@), n, dict@, *shuangpin, fls);
    let predefined = first_char_table(swap);
    let bans = keys_exec(&predefined, true);
    let none: Vec<char> = Vec::new();
    let keys = keep_out_exec(&keyboard(), &bans, &none);
    assert(keys@ == process_keys(predefined@));
    let perms = first_permutations(&keys, n);
    let ghost pv = perms.deep_view();
    proof {
        assert forall|i: int| 0 <= i < pv.len() implies (#[trigger] pv[i]) == perms@[i]@ by {
            text::lemma_chars_deep_view(&perms@[i]);
            assert(pv[i] == perms@[i].deep_view());
        }
        assert forall|i: int| 0 <= i < pv.len() implies (#[trigger] pv[i]).to_multiset()
            == keys@.to_multiset() by {
            assert(pv[i] == perms@[i]@);
        }
        lemma_keyboard_keys_distinct();
        lemma_keep_out_distinct(keyboard_keys(), values_of(predefined@), Seq::<char>::empty());
        assert(keys@.no_duplicates());
        assert forall|i: int, j: int| 0 <= i < j < pv.len() implies #[trigger] pv[i]
            != #[trigger] pv[j] by {
            assert(pv[i] == perms@[i]@ && pv[j] == perms@[j]@);
        }
        if pv.len() > 0 {
            assert(pv[0] == perms@[0]@);
        }
        assert(perms_counted(keys@, n as nat, pv));
    }
    let mut tosort: Vec<(usize, PermScored)> = Vec::new();
    let mut i: usize = 0;
    while i < perms.len()
        invariant
            i <= perms.len(),
            pv == perms.deep_view(),
            pv == permutations_taken(keys@, n),
            perms_counted(keys@, n as nat, pv),
            takelen_max == Ok::<usize, usize>(n),
            keys@ == process_keys(predefined@),
            predefined@ == cmap::cput_all(first_char_pairs(kt::sd_view(swap@))),
            fls == text::strs(fluents@),
            keyed == process_keyed(kt::sd_view(swap@), n, dict@, *shuangpin, fls),
            tosort.len() == i,
            forall|q: int|
                0 <= q < i ==> repeat::scoring_ready(
                    dict@,
                    perm_swap_dict(keys@, #[trigger] pv[q], predefined@),
                    *shuangpin,
                    fls,
                ),
            forall|q: int|
                0 <= q < i ==> ((#[trigger] tosort@[q]).0, perm_scored_view(tosort@[q].1))
                    == keyed[q],
        decreases perms.len() - i,
    {
        proof {
            text::lemma_chars_deep_view(&perms@[i as int]);
            assert(pv[i as int] == perms@[i as int].deep_view());
        }
        let p = &perms[i];
        let h = restruct_swap_dict(p, &predefined, &keys);
        let sd = repeat::char_swap_dict(&h);
        assert(kt::sd_view(sd@) == perm_swap_dict(keys@, pv[i as int], predefined@));
        match score_swap_dict(&sd, dict, shuangpin, fluents) {
            Some(t) => {
                let score = t.0;
                let ghost e = (score, (pv[i as int], (t.0, out::wms_view(t.1@))));
                assert(e == keyed[i as int]);
                tosort.push((score, (p.clone(), t)));
                assert(p@ == pv[i as int]);
            },
            None => {
                assert(!repeat::scoring_ready(
                    dict@,
                    perm_swap_dict(keys@, pv[i as int], predefined@),
                    *shuangpin,
                    fls,
                ));
                return None;
            },
        }
        i = i + 1;
    }
    let ghost tv = tosort@;
    let sorted = sort_by_score(tosort);
    let ghost f = |e: PermScored| perm_scored_view(e);
    proof {
        let g = |e: (usize, PermScored)| (e.0, f(e.1));
        assert(tv.map_values(g) =~= keyed);
        lemma_sort_scored_map(tv, f);
    }
    let mut out_v: Vec<PermScored> = Vec::new();
    let mut rest = sorted;
    let ghost sv = rest@;
    while rest.len() > 0
        invariant
            rest.len() <= sv.len(),
            rest@ == sv.skip(sv.len() - rest.len()),
            out_v@ == sv.take(sv.len() - rest.len()).map_values(|e: (usize, PermScored)| e.1),
        decreases rest.len(),
    {
        let ghost k = sv.len() - rest.len();
        let ghost rv = rest@;
        let (_, e) = rest.remove(0);
        proof {
            assert(rv[0] == sv[k]);
            assert(rest@ =~= sv.skip(k + 1));
        }
        out_v.push(e);
        assert(out_v@ =~= sv.take(k + 1).map_values(|e: (usize, PermScored)| e.1));
    }
    assert(sv.take(sv.len() as int) =~= sv);
    proof {
        let g = |e: (usize, PermScored)| (e.0, f(e.1));
        assert(out_v@.map_values(|e: PermScored| perm_scored_view(e)) =~= sort_scored(
            keyed,
        ).map_values(|e: (usize, (Seq<char>, ScoredWords))| e.1));
    }
    Some(out_v)
}


/// A copy of scored words.
fn copy_words(j: &Vec<(String, WithMakeWordSpecifier)>) -> (r: Vec<(String, WithMakeWordSpecifier)>)
    ensures
        out::wms_view(r@) == out::wms_view(j@),
{
    let mut r: Vec<(String, WithMakeWordSpecifier)> = Vec::new();
    let mut i: usize = 0;
    while i < j.len()
        invariant
            i <= j.len(),
            out::wms_view(r@) == out::wms_view(j@).take(i as int),
        decreases j.len() - i,
    {
        let w = WithMakeWordSpecifier {
            specified_for_make_word_spells: j[i].1.specified_for_make_word_spells.clone(),
            other_spells: j[i].1.other_spells.clone(),
        };
        assert(text::strs(w.specified_for_make_word_spells@) =~= text::strs(
            j@[i as int].1.specified_for_make_word_spells@,
        ));
        assert(text::strs(w.other_spells@) =~= text::strs(j@[i as int].1.other_spells@));
        let ghost r0 = out::wms_view(r@);
        let word = j[i].0.clone();
        assert(out::wm_view(w) == out::wm_view(j@[i as int].1));
        r.push((word, w));
        assert(out::wms_view(r@) =~= r0.push(out::wms_view(j@)[i as int]));
        i = i + 1;
        assert(out::wms_view(r@) =~= out::wms_view(j@).take(i as int));
    }
    assert(out::wms_view(j@).take(j.len() as int) =~= out::wms_view(j@));
    r
}

impl DictTranslator {
    /// Scores the first permutations of the free keyboard keys (as
    /// `perm_swap_table_process` does) and gives them ordered by score, with
    /// the spell table of the best one. `None` when some permutation cannot be
    /// scored, or fewer than five are scored.
    pub fn explore_swap_and_flip_word_spells(
        &self,
        dict: YongDictWordSpells,
        swap_dict: &SwapKeyDict,
        shuangpin: &ShuangPinTables,
        fluents: &Vec<String>,
        takelen_max: Result<usize, usize>,
    ) -> (r: Option<(Vec<PermScored>, Vec<(String, Vec<String>)>)>)
        requires
            takelen_max is Ok,
        ensures
            ({
                let n = takelen_max->Ok_0;
                let sd = kt::sd_view(swap_dict@);
                let fls = text::strs(fluents@);
                let sorted = sort_scored(process_keyed(sd, n, dict@, *shuangpin, fls));
                &&& perms_counted(
                    process_keys(cmap::cput_all(first_char_pairs(sd))),
                    n as nat,
                    process_perms(sd, n),
                )
                &&& sorted.len() == process_perms(sd, n).len()
                &&& match r {
                    Some((v, table)) => {
                        &&& process_ready(sd, n, dict@, *shuangpin, fls)
                        &&& sorted.len() >= 5
                        &&& v@.map_values(|e: PermScored| perm_scored_view(e)) == sorted.map_values(
                            |e: (usize, (Seq<char>, ScoredWords))| e.1,
                        )
                        &&& out::sws_view(table@) == out::flip_specified(sorted[0].1.1.1)
                    },
                    None => !process_ready(sd, n, dict@, *shuangpin, fls) || sorted.len() < 5,
                }
            }),
    {
        let ghost n = takelen_max->Ok_0;
        let ghost keyed = process_keyed(
            kt::sd_view(swap_dict@),
            n,
            dict@,
            *shuangpin,
            text::strs(fluents@),
        );
        proof {
            lemma_sort_scored(keyed);
            broadcast use vstd::seq_lib::group_to_multiset_ensures;

            assert(sort_scored(keyed).to_multiset().len() == keyed.to_multiset().len());
        }
        match perm_swap_table_process(swap_dict, takelen_max, &dict, shuangpin, fluents) {
            None => None,
            Some(sorted) => {
                let ghost view = sorted@.map_values(|e: PermScored| perm_scored_view(e));
                assert(view.len() == sorted@.len());
                if sorted.len() < 5 {
                    return None;
                }
                assert(view[0] == perm_scored_view(sorted@[0]));
                let best = copy_words(&sorted[0].1.1);
                let table = specifier_to_wordspells(best);
                Some((sorted, table))
            },
        }
    }
}

/// Scores the dictionary under the swap table of a permutation (see
/// `score_swap_dict`).
pub fn perm_action(
    swaps: &SwapDictChars,
    d: &Vec<char>,
    dict: &YongDictWordSpells,
    shuangpin: &ShuangPinTables,
    fluents: &Vec<String>,
) -> (r: Option<(usize, Vec<(String, WithMakeWordSpecifier)>)>)
    ensures
        ({
            let sd = perm_swap_dict(swaps.fromchars@, d@, swaps.predefined@);
            match r {
                Some(t) => repeat::scoring_ready(dict@, sd, *shuangpin, text::strs(fluents@)) && (
                t.0, out::wms_view(t.1@)) == scored_words(dict@, sd, *shuangpin, text::strs(fluents@)),
                None => !repeat::scoring_ready(dict@, sd, *shuangpin, text::strs(fluents@)),
            }
        }),
{
    let table = swaps.restruct_swap_dict(d);
    let sd = repeat::char_swap_dict(&table);
    score_swap_dict(&sd, dict, shuangpin, fluents)
}

/// The spell table of the dictionary under the swap table of a permutation;
/// `None` when the dictionary cannot be scored under it or a spell is too long
/// to be ordered.
pub fn perm_dict_text(
    swaps: &SwapDictChars,
    perm: &Vec<char>,
    dict: &YongDictWordSpells,
    shuangpin: &ShuangPinTables,
    fluents: &Vec<String>,
) -> (r: Option<String>)
    ensures
        ({
            let sd = perm_swap_dict(swaps.fromchars@, perm@, swaps.predefined@);
            let j = out::specify_all(dict@, sd, *shuangpin, text::strs(fluents@));
            match r {
                Some(s) => repeat::scoring_ready(dict@, sd, *shuangpin, text::strs(fluents@))
                    && repeat::record_fits(j) && s@ == out::table_text(
                    out::sort_by_spell(out::flip_specified(j)),
                ),
                None => !repeat::scoring_ready(dict@, sd, *shuangpin, text::strs(fluents@))
                    || !repeat::record_fits(j),
            }
        }),
{
    match perm_action(swaps, perm, dict, shuangpin, fluents) {
        None => None,
        Some(t) => {
            let ghost jv = out::wms_view(t.1@);
            let spellwords = specifier_to_wordspells(t.1);
            if !out::spells_fit_check(&spellwords) {
                proof {
                    let k = choose|k: int|
                        0 <= k < spellwords@.len() && !((#[trigger] spellwords@[k]).0@.len()
                            <= i32::MAX);
                    assert(out::sws_view(spellwords@)[k].0 == spellwords@[k].0@);
                    assert(out::flip_specified(jv)[k].0.len() > i32::MAX);
                }
                return None;
            }
            proof {
                assert forall|k: int| 0 <= k < out::flip_specified(jv).len() implies (
                #[trigger] out::flip_specified(jv)[k]).0.len() <= i32::MAX by {
                    assert(out::sws_view(spellwords@)[k].0 == spellwords@[k].0@);
                }
            }
            Some(out::spell_words_dict_tostring(spellwords))
        },
    }
}


/// The places among all keys of the characters of `slots` that are keys.
pub open spec fn slot_indices(all: Seq<char>, slots: Seq<char>) -> Seq<usize>
    decreases slots.len(),
{
    if slots.len() == 0 {
        seq![]
    } else {
        slot_indices(all, slots.drop_last()) + match first_index(all, slots.last()) {
            Some(i) => seq![i as usize],
            None => Seq::<usize>::empty(),
        }
    }
}

/// The first place of `c`.
pub open spec fn first_index(s: Seq<char>, c: char) -> Option<int>
    decreases s.len(),
{
    if s.len() == 0 {
        None
    } else {
        match first_index(s.drop_last(), c) {
            Some(i) => Some(i),
            None => if s.last() == c {
                Some(s.len() - 1)
            } else {
                None
            },
        }
    }
}

proof fn lemma_first_index(s: Seq<char>, c: char)
    ensures
        first_index(s, c) matches Some(i) ==> 0 <= i < s.len() && s[i] == c && forall|j: int|
            0 <= j < i ==> s[j] != c,
        first_index(s, c) is None ==> !s.contains(c),
    decreases s.len(),
{
    if s.len() > 0 {
        lemma_first_index(s.drop_last(), c);
        assert forall|j: int| 0 <= j < s.len() - 1 implies #[trigger] s[j] == s.drop_last()[j] by {}
        if first_index(s, c) is None {
            assert forall|j: int| 0 <= j < s.len() implies s[j] != c by {
                if j < s.len() - 1 {
                    assert(s.drop_last()[j] == s[j]);
                }
            }
        }
    }
}

proof fn lemma_first_index_is(s: Seq<char>, c: char, i: int)
    requires
        0 <= i < s.len(),
        s[i] == c,
        forall|j: int| 0 <= j < i ==> s[j] != c,
    ensures
        first_index(s, c) == Some(i),
{
    lemma_first_index(s, c);
    if first_index(s, c) is None {
        assert(s.contains(c));
    }
}

pub open spec fn specials_chars(sp: Seq<(Seq<char>, Seq<char>)>) -> Seq<char>
    decreases sp.len(),
{
    if sp.len() == 0 {
        seq![]
    } else {
        specials_chars(sp.drop_last()) + sp.last().0
    }
}

pub open spec fn pair_views(sp: Seq<(String, String)>) -> Seq<(Seq<char>, Seq<char>)> {
    sp.map_values(|e: (String, String)| (e.0@, e.1@))
}

impl SwapDictChars {
    /// The characters of all specials, and each special with the places of its
    /// slot keys.
    pub fn specify(&self, specials_slots: &Vec<(String, String)>) -> (r: (
        Vec<char>,
        Vec<(Vec<char>, Vec<usize>)>,
    ))
        ensures
            r.0@ == specials_chars(pair_views(specials_slots@)),
            r.1.len() == specials_slots.len(),
            forall|i: int|
                0 <= i < r.1.len() ==> (#[trigger] r.1@[i]).0@ == specials_slots@[i].0@ && r.1@[i].1@
                    == slot_indices(self.allchars@, specials_slots@[i].1@),
    {
        let ghost pv = pair_views(specials_slots@);
        let mut specialchars: Vec<char> = Vec::new();
        let mut ss: Vec<(Vec<char>, Vec<usize>)> = Vec::new();
        let mut i: usize = 0;
        while i < specials_slots.len()
            invariant
                i <= specials_slots.len(),
                pv == pair_views(specials_slots@),
                specialchars@ == specials_chars(pv.take(i as int)),
                ss.len() == i,
                forall|q: int|
                    0 <= q < i ==> (#[trigger] ss@[q]).0@ == specials_slots@[q].0@ && ss@[q].1@
                        == slot_indices(self.allchars@, specials_slots@[q].1@),
            decreases specials_slots.len() - i,
        {
            proof {
                assert(pv.take(i + 1).drop_last() =~= pv.take(i as int));
            }
            let sc = chars_of(specials_slots[i].0.as_str());
            text::push_all(&mut specialchars, &sc);
            let slots = chars_of(specials_slots[i].1.as_str());
            let mut idx: Vec<usize> = Vec::new();
            let mut k: usize = 0;
            while k < slots.len()
                invariant
                    k <= slots.len(),
                    idx@ == slot_indices(self.allchars@, slots@.take(k as int)),
                decreases slots.len() - k,
            {
                proof {
                    assert(slots@.take(k + 1).drop_last() =~= slots@.take(k as int));
                    lemma_first_index(self.allchars@, slots@[k as int]);
                }
                match self.index(slots[k]) {
                    Some(p) => {
                        proof {
                            lemma_first_index_is(self.allchars@, slots@[k as int], p as int);
                        }
                        idx.push(p);
                    },
                    None => {},
                }
                k = k + 1;
                assert(idx@ =~= slot_indices(self.allchars@, slots@.take(k as int)));
            }
            assert(slots@.take(slots.len() as int) =~= slots@);
            ss.push((sc, idx));
            i = i + 1;
        }
        assert(pv.take(specials_slots.len() as int) =~= pv);
        (specialchars, ss)
    }
}

/// The character put at place `i` by the last pair of that place.
pub open spec fn slot_value(pairs: Seq<(usize, char)>, i: usize) -> Option<char>
    decreases pairs.len(),
{
    if pairs.len() == 0 {
        None
    } else if pairs.last().0 == i {
        Some(pairs.last().1)
    } else {
        slot_value(pairs.drop_last(), i)
    }
}

/// Number of distinct places that the pairs fill.
pub open spec fn slot_count(pairs: Seq<(usize, char)>) -> nat
    decreases pairs.len(),
{
    if pairs.len() == 0 {
        0
    } else {
        slot_count(pairs.drop_last()) + if slot_value(pairs.drop_last(), pairs.last().0) is Some {
            0nat
        } else {
            1nat
        }
    }
}

/// The first `i` keys of a specialised permutation: a filled place takes its
/// special key, the other places the normal keys in their order; with how
/// many normal keys went in. `None` once the normal keys run out.
pub open spec fn assembled(normals: Seq<char>, pairs: Seq<(usize, char)>, i: nat) -> Option<
    (Seq<char>, nat),
>
    decreases i,
{
    if i == 0 {
        Some((seq![], 0))
    } else {
        match assembled(normals, pairs, (i - 1) as nat) {
            None => None,
            Some((v, u)) => match slot_value(pairs, (i - 1) as usize) {
                Some(c) => Some((v.push(c), u)),
                None => if u < normals.len() {
                    Some((v.push(normals[u as int]), u + 1))
                } else {
                    None
                },
            },
        }
    }
}

fn slot_value_exec(pairs: &Vec<(usize, char)>, i: usize) -> (r: Option<char>)
    ensures
        r == slot_value(pairs@, i),
{
    let mut k = pairs.len();
    assert(pairs@.take(k as int) =~= pairs@);
    while k > 0
        invariant
            k <= pairs.len(),
            slot_value(pairs@, i) == slot_value(pairs@.take(k as int), i),
        decreases k,
    {
        assert(pairs@.take(k as int).drop_last() =~= pairs@.take(k - 1));
        if pairs[k - 1].0 == i {
            return Some(pairs[k - 1].1);
        }
        k = k - 1;
    }
    None
}

/// A specialised permutation: `pairs` put special keys at places, the normal
/// keys (in the order given) fill the rest; as many places as there are normal
/// keys and filled places. `None` when the normal keys run out first.
pub fn perm_specify(normal_mix: &Vec<char>, pairs: &Vec<(usize, char)>) -> (r: Option<Vec<char>>)
    requires
        normal_mix.len() + pairs.len() <= usize::MAX,
    ensures
        ({
            let total = normal_mix.len() + slot_count(pairs@);
            match r {
                Some(v) => assembled(normal_mix@, pairs@, total as nat) matches Some((w, _)) && v@
                    == w,
                None => assembled(normal_mix@, pairs@, total as nat) is None,
            }
        }),
{
    let mut count: usize = 0;
    let mut k: usize = 0;
    while k < pairs.len()
        invariant
            k <= pairs.len(),
            count == slot_count(pairs@.take(k as int)),
            count <= k,
        decreases pairs.len() - k,
    {
        proof {
            assert(pairs@.take(k + 1).drop_last() =~= pairs@.take(k as int));
        }
        let prev = slot_value_exec(&pairs_prefix(pairs, k), pairs[k].0);
        if prev.is_none() {
            count = count + 1;
        }
        k = k + 1;
    }
    assert(pairs@.take(pairs.len() as int) =~= pairs@);
    let total = normal_mix.len() + count;
    let mut v: Vec<char> = Vec::new();
    let mut used: usize = 0;
    let mut i: usize = 0;
    while i < total
        invariant
            i <= total,
            total == normal_mix.len() + slot_count(pairs@),
            used <= i,
            assembled(normal_mix@, pairs@, i as nat) == Some((v@, used as nat)),
        decreases total - i,
    {
        match slot_value_exec(pairs, i) {
            Some(c) => {
                v.push(c);
            },
            None => {
                if used < normal_mix.len() {
                    v.push(normal_mix[used]);
                    used = used + 1;
                } else {
                    proof {
                        lemma_assembled_none(normal_mix@, pairs@, (i + 1) as nat, total as nat);
                    }
                    return None;
                }
            },
        }
        i = i + 1;
    }
    Some(v)
}

proof fn lemma_assembled_none(normals: Seq<char>, pairs: Seq<(usize, char)>, i: nat, n: nat)
    requires
        i <= n,
        assembled(normals, pairs, i) is None,
    ensures
        assembled(normals, pairs, n) is None,
    decreases n - i,
{
    if i < n {
        lemma_assembled_none(normals, pairs, i + 1, n);
    }
}

fn pairs_prefix(pairs: &Vec<(usize, char)>, k: usize) -> (r: Vec<(usize, char)>)
    requires
        k <= pairs.len(),
    ensures
        r@ == pairs@.take(k as int),
{
    let mut r: Vec<(usize, char)> = Vec::new();
    let mut i: usize = 0;
    while i < k
        invariant
            k <= pairs.len(),
            i <= k,
            r@ == pairs@.take(i as int),
        decreases k - i,
    {
        r.push(pairs[i]);
        i = i + 1;
        assert(r@ =~= pairs@.take(i as int));
    }
    r
}


/// The pieces joined with nothing between.
pub open spec fn concat_all(ss: Seq<Seq<char>>) -> Seq<char>
    decreases ss.len(),
{
    if ss.len() == 0 {
        seq![]
    } else {
        concat_all(ss.drop_last()) + ss.last()
    }
}

/// Order of pairs of texts: by the first, then by the second.
pub open spec fn str_pair_le(a: (Seq<char>, Seq<char>), b: (Seq<char>, Seq<char>)) -> bool {
    util::lex_lt(a.0, b.0) || (a.0 == b.0 && !util::lex_lt(b.1, a.1))
}

pub open spec fn insert_str_pair(s: Seq<(Seq<char>, Seq<char>)>, x: (Seq<char>, Seq<char>)) -> Seq<
    (Seq<char>, Seq<char>),
>
    decreases s.len(),
{
    if s.len() == 0 {
        seq![x]
    } else if str_pair_le(x, s[0]) {
        seq![x] + s
    } else {
        seq![s[0]] + insert_str_pair(s.skip(1), x)
    }
}

/// The pairs of texts in order (an insertion sort).
pub open spec fn sort_str_pairs(s: Seq<(Seq<char>, Seq<char>)>) -> Seq<(Seq<char>, Seq<char>)>
    decreases s.len(),
{
    if s.len() == 0 {
        seq![]
    } else {
        insert_str_pair(sort_str_pairs(s.drop_last()), s.last())
    }
}

proof fn lemma_insert_str_pair_at(s: Seq<(Seq<char>, Seq<char>)>, x: (Seq<char>, Seq<char>), p: int)
    requires
        0 <= p <= s.len(),
        forall|j: int| 0 <= j < p ==> !str_pair_le(x, #[trigger] s[j]),
        p < s.len() ==> str_pair_le(x, s[p]),
    ensures
        insert_str_pair(s, x) == s.take(p) + seq![x] + s.skip(p),
    decreases s.len(),
{
    if s.len() == 0 {
        assert(s.take(p) + seq![x] + s.skip(p) =~= seq![x]);
    } else if p == 0 {
        assert(s.take(p) + seq![x] + s.skip(p) =~= seq![x] + s);
    } else {
        let t = s.skip(1);
        assert forall|j: int| 0 <= j < p - 1 implies !str_pair_le(x, #[trigger] t[j]) by {
            assert(t[j] == s[j + 1]);
        }
        lemma_insert_str_pair_at(t, x, p - 1);
        assert(seq![s[0]] + (t.take(p - 1) + seq![x] + t.skip(p - 1)) =~= s.take(p) + seq![x]
            + s.skip(p));
    }
}

fn str_pair_le_exec(a: &(Vec<char>, Vec<char>), b: &(Vec<char>, Vec<char>)) -> (r: bool)
    ensures
        r == str_pair_le((a.0@, a.1@), (b.0@, b.1@)),
{
    if lex_less(&a.0, &b.0) {
        true
    } else if text_eq(&a.0, &b.0) {
        !lex_less(&b.1, &a.1)
    } else {
        false
    }
}

fn text_eq(a: &Vec<char>, b: &Vec<char>) -> (r: bool)
    ensures
        r == (a@ == b@),
{
    repeat::perms_equal(a, b)
}

pub open spec fn texts_view(s: Seq<(Vec<char>, Vec<char>)>) -> Seq<(Seq<char>, Seq<char>)> {
    s.map_values(|e: (Vec<char>, Vec<char>)| (e.0@, e.1@))
}

fn sort_text_pairs(v: Vec<(Vec<char>, Vec<char>)>) -> (r: Vec<(Vec<char>, Vec<char>)>)
    ensures
        texts_view(r@) == sort_str_pairs(texts_view(v@)),
{
    let mut v = v;
    let ghost v0 = texts_view(v@);
    let mut r: Vec<(Vec<char>, Vec<char>)> = Vec::new();
    while v.len() > 0
        invariant
            v.len() <= v0.len(),
            texts_view(v@) == v0.skip(v0.len() - v.len()),
            texts_view(r@) == sort_str_pairs(v0.take(v0.len() - v.len())),
        decreases v.len(),
    {
        let ghost k = v0.len() - v.len();
        let ghost vv = texts_view(v@);
        let x = v.remove(0);
        proof {
            assert(vv[0] == v0[k]);
            assert(texts_view(v@) =~= vv.skip(1));
            assert(vv.skip(1) =~= v0.skip(k + 1));
            assert(v0.take(k + 1).drop_last() =~= v0.take(k));
            assert(v0.take(k + 1).last() == (x.0@, x.1@));
        }
        let mut p: usize = 0;
        while p < r.len() && !str_pair_le_exec(&x, &r[p])
            invariant
                p <= r.len(),
                forall|j: int| 0 <= j < p ==> !str_pair_le((x.0@, x.1@), #[trigger] texts_view(r@)[j]),
            decreases r.len() - p,
        {
            p = p + 1;
        }
        proof {
            lemma_insert_str_pair_at(texts_view(r@), (x.0@, x.1@), p as int);
        }
        let ghost r0 = texts_view(r@);
        r.insert(p, x);
        assert(texts_view(r@) =~= r0.take(p as int) + seq![(x.0@, x.1@)] + r0.skip(p as int));
    }
    assert(v0.take(v0.len() as int) =~= v0);
    r
}

/// The name of a run over specials: the base, `-` and each fixed pair in
/// order, then `-`, the sorted special keys, `_` and the sorted slot keys of
/// each special, the specials in order.
pub open spec fn special_name_of(
    base: Seq<char>,
    pre: Seq<(char, char)>,
    specials: Seq<(Seq<char>, Seq<char>)>,
) -> Seq<char> {
    base + concat_all(
        chain::sort_pairs(pre).map_values(|p: (char, char)| seq!['-', p.0, p.1]),
    ) + concat_all(
        sort_str_pairs(sorted_specials(specials)).map_values(
            |e: (Seq<char>, Seq<char>)| seq!['-'] + e.0 + seq!['_'] + e.1,
        ),
    )
}

/// Each special with its keys sorted and its slot keys sorted.
pub open spec fn sorted_specials(specials: Seq<(Seq<char>, Seq<char>)>) -> Seq<(Seq<char>, Seq<char>)> {
    specials.map_values(|e: (Seq<char>, Seq<char>)| (sort_chars(e.0), sort_chars(e.1)))
}

/// Names a run over specials after the fixed pairs and the specials.
pub fn special_name(base: &str, sdc: &SwapDictChars, specials: &Vec<(String, String)>) -> (s: String)
    ensures
        s@ == special_name_of(base@, sdc.predefined@, pair_views(specials@)),
{
    let mut out = chars_of(base);
    let pre = chain::sort_layout(&sdc.predefined);
    let ghost o0 = out@;
    let mut i: usize = 0;
    while i < pre.len()
        invariant
            i <= pre.len(),
            out@ == o0 + concat_all(
                pre@.take(i as int).map_values(|p: (char, char)| seq!['-', p.0, p.1]),
            ),
        decreases pre.len() - i,
    {
        let ghost before = out@;
        out.push('-');
        out.push(pre[i].0);
        out.push(pre[i].1);
        proof {
            let f = |p: (char, char)| seq!['-', p.0, p.1];
            assert(pre@.take(i + 1).map_values(f).drop_last() =~= pre@.take(i as int).map_values(f));
            assert(out@ =~= before + f(pre@[i as int]));
        }
        i = i + 1;
    }
    assert(pre@.take(pre.len() as int) =~= pre@);
    let ghost sv = pair_views(specials@).map_values(
        |e: (Seq<char>, Seq<char>)| (sort_chars(e.0), sort_chars(e.1)),
    );
    let mut sorted_each: Vec<(Vec<char>, Vec<char>)> = Vec::new();
    let mut k: usize = 0;
    while k < specials.len()
        invariant
            k <= specials.len(),
            sv == pair_views(specials@).map_values(
                |e: (Seq<char>, Seq<char>)| (sort_chars(e.0), sort_chars(e.1)),
            ),
            texts_view(sorted_each@) == sv.take(k as int),
        decreases specials.len() - k,
    {
        let a = sorted_chars(&chars_of(specials[k].0.as_str()));
        let b = sorted_chars(&chars_of(specials[k].1.as_str()));
        let ghost t0 = texts_view(sorted_each@);
        let ghost e = (a@, b@);
        assert(e == sv[k as int]);
        sorted_each.push((a, b));
        assert(texts_view(sorted_each@) =~= t0.push(e));
        k = k + 1;
        assert(texts_view(sorted_each@) =~= sv.take(k as int));
    }
    assert(sv.take(specials.len() as int) =~= sv);
    let sorted = sort_text_pairs(sorted_each);
    let ghost st = texts_view(sorted@);
    let ghost o1 = out@;
    let mut j: usize = 0;
    while j < sorted.len()
        invariant
            j <= sorted.len(),
            st == texts_view(sorted@),
            out@ == o1 + concat_all(
                st.take(j as int).map_values(
                    |e: (Seq<char>, Seq<char>)| seq!['-'] + e.0 + seq!['_'] + e.1,
                ),
            ),
        decreases sorted.len() - j,
    {
        let ghost before = out@;
        out.push('-');
        text::push_all(&mut out, &sorted[j].0);
        out.push('_');
        text::push_all(&mut out, &sorted[j].1);
        proof {
            let f = |e: (Seq<char>, Seq<char>)| seq!['-'] + e.0 + seq!['_'] + e.1;
            assert(st.take(j + 1).map_values(f).drop_last() =~= st.take(j as int).map_values(f));
            assert(out@ =~= before + f(st[j as int]));
        }
        j = j + 1;
    }
    assert(st.take(sorted.len() as int) =~= st);
    string_of(&out)
}

/// A character that separates a special from its slots.
pub open spec fn is_special_sep(c: char) -> bool {
    c == ',' || c == '-' || c == '.'
}

/// The first place of a separator.
pub open spec fn first_sep(s: Seq<char>) -> Option<int>
    decreases s.len(),
{
    if s.len() == 0 {
        None
    } else {
        match first_sep(s.drop_last()) {
            Some(i) => Some(i),
            None => if is_special_sep(s.last()) {
                Some(s.len() - 1)
            } else {
                None
            },
        }
    }
}

/// The special and the slots that an argument names: the text before the
/// first separator (`,`, `-` or `.`) and the text after it up to the next one;
/// none without a separator.
pub open spec fn special_of_text(s: Seq<char>) -> Option<(Seq<char>, Seq<char>)> {
    match first_sep(s) {
        None => None,
        Some(p) => {
            let rest = s.skip(p + 1);
            Some(
                (
                    s.take(p),
                    match first_sep(rest) {
                        Some(q) => rest.take(q),
                        None => rest,
                    },
                ),
            )
        },
    }
}

fn first_sep_exec(s: &Vec<char>, from: usize) -> (r: Option<usize>)
    requires
        from <= s.len(),
    ensures
        match r {
            Some(q) => first_sep(s@.skip(from as int)) == Some(q - from) && from <= q < s.len(),
            None => first_sep(s@.skip(from as int)) is None,
        },
{
    let ghost t = s@.skip(from as int);
    let mut i: usize = from;
    while i < s.len()
        invariant
            from <= i <= s.len(),
            t == s@.skip(from as int),
            first_sep(t.take(i - from)) is None,
        decreases s.len() - i,
    {
        proof {
            assert(t.take(i + 1 - from).drop_last() =~= t.take(i - from));
            assert(t.take(i + 1 - from).last() == s@[i as int]);
        }
        if s[i] == ',' || s[i] == '-' || s[i] == '.' {
            proof {
                lemma_first_sep_prefix(t, i + 1 - from, i - from);
            }
            return Some(i);
        }
        i = i + 1;
    }
    assert(t.take(s.len() - from) =~= t);
    None
}

proof fn lemma_first_sep_prefix(t: Seq<char>, k: int, i: int)
    requires
        0 < k <= t.len(),
        first_sep(t.take(k)) == Some(i),
    ensures
        first_sep(t) == Some(i),
    decreases t.len() - k,
{
    if k < t.len() {
        assert(t.take(k + 1).drop_last() =~= t.take(k));
        lemma_first_sep_prefix(t, k + 1, i);
    } else {
        assert(t.take(k) =~= t);
    }
}

/// Reads the special and its slots from an argument.
pub fn special_of(arg: &str) -> (r: Option<(String, String)>)
    ensures
        match r {
            Some((a, b)) => special_of_text(arg@) == Some((a@, b@)),
            None => special_of_text(arg@) is None,
        },
{
    let s = chars_of(arg);
    assert(s@.skip(0) =~= s@);
    match first_sep_exec(&s, 0) {
        None => None,
        Some(p) => {
            let mut a: Vec<char> = Vec::new();
            let mut i: usize = 0;
            while i < p
                invariant
                    p < s.len(),
                    i <= p,
                    a@ == s@.take(i as int),
                decreases p - i,
            {
                a.push(s[i]);
                i = i + 1;
                assert(a@ =~= s@.take(i as int));
            }
            let ghost rest = s@.skip(p + 1);
            let end = match first_sep_exec(&s, p + 1) {
                Some(q) => q,
                None => s.len(),
            };
            let mut b: Vec<char> = Vec::new();
            let mut j: usize = p + 1;
            while j < end
                invariant
                    p + 1 <= j <= end <= s.len(),
                    b@ == s@.subrange(p + 1, j as int),
                decreases end - j,
            {
                b.push(s[j]);
                j = j + 1;
                assert(b@ =~= s@.subrange(p + 1, j as int));
            }
            proof {
                if end < s.len() {
                    assert(rest.take(end - p - 1) =~= s@.subrange(p + 1, end as int));
                } else {
                    assert(rest =~= s@.subrange(p + 1, end as int));
                }
            }
            Some((string_of(&a), string_of(&b)))
        },
    }
}


impl SwapDictChars {
    /// The Cangjie keys to be placed that are not special.
    pub fn normal_chars(&self, specialchars: &Vec<char>) -> (r: Vec<char>)
        ensures
            r@ == keep_out(self.tochars@, specialchars@, Seq::<char>::empty()),
    {
        let none: Vec<char> = Vec::new();
        assert(none@ =~= Seq::<char>::empty());
        keep_out_exec(&self.tochars, specialchars, &none)
    }
}


/// In the swap table of a permutation the fixed pairs win: a key that the
/// fixed pairs hold keeps its fixed value, any other key the value that the
/// permutation gives it.
pub proof fn lemma_fixed_pairs_win(from: Seq<char>, perm: Seq<char>, pre: Seq<(char, char)>, k: char)
    ensures
        cmap::cget(cmap::cput_all(zip_chars(from, perm) + pre), k) == match cmap::cget(
            cmap::cput_all(pre),
            k,
        ) {
            Some(v) => Some(v),
            None => cmap::cget(cmap::cput_all(zip_chars(from, perm)), k),
        },
{
    cmap::lemma_cget_concat(zip_chars(from, perm), pre, k);
}


/// The best score of a round is no larger than the score of any result.
pub proof fn lemma_round_best(results: Seq<(Vec<char>, usize)>)
    requires
        results.len() > 0,
    ensures
        forall|i: int|
            0 <= i < results.len() ==> sort_scored(scored_of(results))[0].0 <= (
            #[trigger] results[i]).1,
{
    broadcast use vstd::multiset::group_multiset_axioms, vstd::seq_lib::group_to_multiset_ensures;

    let sc = scored_of(results);
    let st = sort_scored(sc);
    lemma_sort_scored(sc);
    assert forall|i: int| 0 <= i < results.len() implies st[0].0 <= (#[trigger] results[i]).1 by {
        assert(sc[i] == (results[i].1, results[i].0));
        assert(sc.contains(sc[i]));
        assert(sc.to_multiset().count(sc[i]) > 0);
        assert(st.to_multiset().count(sc[i]) > 0);
        assert(st.contains(sc[i]));
        let q = choose|q: int| 0 <= q < st.len() && st[q] == sc[i];
        if q > 0 {
            assert(st[0].0 <= st[q].0);
        }
    }
}


/// The items in an order: at each place, the item that the order names there.
pub open spec fn ordered_by<T>(items: Seq<T>, p: Seq<u64>) -> Seq<T> {
    Seq::new(p.len(), |i: int| items[p[i] as int])
}

fn order_items<T: Copy>(items: &Vec<T>, p: &Vec<u64>) -> (r: Vec<T>)
    requires
        forall|i: int| 0 <= i < p.len() ==> #[trigger] p[i] < items.len(),
    ensures
        r@ == ordered_by(items@, p@),
{
    let mut r: Vec<T> = Vec::new();
    let mut i: usize = 0;
    while i < p.len()
        invariant
            i <= p.len(),
            forall|q: int| 0 <= q < p.len() ==> #[trigger] p[q] < items.len(),
            r@ == ordered_by(items@, p@.take(i as int)),
        decreases p.len() - i,
    {
        r.push(items[p[i] as usize]);
        i = i + 1;
        assert(r@ =~= ordered_by(items@, p@.take(i as int)));
    }
    assert(p@.take(p.len() as int) =~= p@);
    r
}

/// The items in a random order.
pub fn pure_perm<T: Copy>(items: &Vec<T>) -> (r: Vec<T>)
    requires
        items.len() <= 0xffff_ffff,
    ensures
        exists|p: Seq<u64>| chain::is_order(p, items.len() as nat) && r@ == ordered_by(items@, p),
{
    let p = chain::random_permutation(items.len() as u64);
    let r = order_items(items, &p);
    assert(chain::is_order(p@, items.len() as nat));
    r
}

/// The first `n` items in a random order.
fn random_first<T: Copy>(items: &Vec<T>, n: usize) -> (r: Vec<T>)
    requires
        n <= items.len(),
        n <= 0xffff_ffff,
    ensures
        exists|p: Seq<u64>| chain::is_order(p, n as nat) && r@ == ordered_by(items@, p),
{
    let p = chain::random_permutation(n as u64);
    let r = order_items(items, &p);
    assert(chain::is_order(p@, n as nat));
    r
}

pub open spec fn slots_view(v: Seq<(Vec<char>, Vec<usize>)>) -> Seq<(Seq<char>, Seq<usize>)> {
    v.map_values(|e: (Vec<char>, Vec<usize>)| (e.0@, e.1@))
}

/// A special takes part when it has as many slots as keys.
pub open spec fn special_taken(e: (Seq<char>, Seq<usize>)) -> bool {
    e.0.len() == e.1.len()
}

/// Each place paired with the key at the same index.
pub open spec fn zip_places(a: Seq<usize>, b: Seq<char>) -> Seq<(usize, char)> {
    Seq::new(a.len(), |i: int| (a[i], b[i]))
}

/// The places of the specials that take part, with their keys: for each such
/// special, its places in order paired with the first keys of `tochars` in the
/// order that `orders` gives it.
pub open spec fn special_pairs_of(
    sv: Seq<(Seq<char>, Seq<usize>)>,
    tochars: Seq<char>,
    orders: Seq<Seq<u64>>,
) -> Seq<(usize, char)>
    decreases sv.len(),
{
    if sv.len() == 0 {
        seq![]
    } else {
        let k = sv.len() - 1;
        special_pairs_of(sv.drop_last(), tochars, orders.drop_last()) + if special_taken(sv[k]) {
            zip_places(sv[k].1, ordered_by(tochars, orders[k]))
        } else {
            seq![]
        }
    }
}

/// Number of places of the specials that take part.
pub open spec fn places_total(sv: Seq<(Seq<char>, Seq<usize>)>) -> nat
    decreases sv.len(),
{
    if sv.len() == 0 {
        0
    } else {
        places_total(sv.drop_last()) + if special_taken(sv.last()) {
            sv.last().1.len()
        } else {
            0
        }
    }
}

/// Each special that takes part has an order of as many keys as it has.
pub open spec fn orders_fit(sv: Seq<(Seq<char>, Seq<usize>)>, orders: Seq<Seq<u64>>) -> bool {
    &&& orders.len() == sv.len()
    &&& forall|i: int|
        0 <= i < sv.len() && special_taken(#[trigger] sv[i]) ==> chain::is_order(
            orders[i],
            sv[i].0.len(),
        )
}

/// A special that takes part has no more keys than there are keys to place.
pub open spec fn specials_fit(sv: Seq<(Seq<char>, Seq<usize>)>, n: nat) -> bool {
    forall|i: int| 0 <= i < sv.len() && special_taken(#[trigger] sv[i]) ==> sv[i].0.len() <= n
}

proof fn lemma_special_pairs_len(sv: Seq<(Seq<char>, Seq<usize>)>, tochars: Seq<char>, orders: Seq<Seq<u64>>)
    ensures
        special_pairs_of(sv, tochars, orders).len() == places_total(sv),
    decreases sv.len(),
{
    if sv.len() > 0 {
        lemma_special_pairs_len(sv.drop_last(), tochars, orders.drop_last());
    }
}

/// The places of the specials that take part, each with a key: the first keys
/// of `tochars` in a random order per special.
fn special_pairs(tochars: &Vec<char>, slots: &Vec<(Vec<char>, Vec<usize>)>) -> (r: Vec<(usize, char)>)
    requires
        tochars.len() <= 0xffff_ffff,
        specials_fit(slots_view(slots@), tochars.len() as nat),
    ensures
        exists|orders: Seq<Seq<u64>>|
            orders_fit(slots_view(slots@), orders) && r@ == special_pairs_of(
                slots_view(slots@),
                tochars@,
                orders,
            ),
{
    let ghost sv = slots_view(slots@);
    let ghost mut orders: Seq<Seq<u64>> = seq![];
    let mut r: Vec<(usize, char)> = Vec::new();
    let mut i: usize = 0;
    while i < slots.len()
        invariant
            i <= slots.len(),
            sv == slots_view(slots@),
            tochars.len() <= 0xffff_ffff,
            specials_fit(sv, tochars.len() as nat),
            orders_fit(sv.take(i as int), orders),
            r@ == special_pairs_of(sv.take(i as int), tochars@, orders),
        decreases slots.len() - i,
    {
        proof {
            assert(sv.take(i + 1).drop_last() =~= sv.take(i as int));
            assert(sv[i as int] == (slots@[i as int].0@, slots@[i as int].1@));
        }
        let ghost before = r@;
        let ghost o0 = orders;
        if slots[i].0.len() == slots[i].1.len() {
            let keys = random_first(tochars, slots[i].0.len());
            let ghost p = choose|p: Seq<u64>|
                chain::is_order(p, slots@[i as int].0.len() as nat) && keys@ == ordered_by(tochars@, p);
            let places = &slots[i].1;
            let mut k: usize = 0;
            while k < places.len()
                invariant
                    k <= places.len(),
                    keys.len() == places.len(),
                    r@ == before + zip_places(places@.take(k as int), keys@),
                decreases places.len() - k,
            {
                r.push((places[k], keys[k]));
                k = k + 1;
                assert(r@ =~= before + zip_places(places@.take(k as int), keys@));
            }
            assert(places@.take(places.len() as int) =~= places@);
            proof {
                orders = o0.push(p);
                assert(orders.drop_last() =~= o0);
                assert(zip_places(places@, keys@) =~= zip_places(sv[i as int].1, ordered_by(tochars@, p)));
            }
        } else {
            proof {
                orders = o0.push(seq![]);
                assert(orders.drop_last() =~= o0);
                assert(r@ =~= before + Seq::<(usize, char)>::empty());
            }
        }
        proof {
            let t = sv.take(i + 1);
            assert forall|q: int| 0 <= q < t.len() && special_taken(#[trigger] t[q]) implies chain::is_order(
                orders[q],
                t[q].0.len(),
            ) by {
                if q < i {
                    assert(t[q] == sv.take(i as int)[q]);
                    assert(orders[q] == o0[q]);
                }
            }
        }
        i = i + 1;
    }
    assert(sv.take(slots.len() as int) =~= sv);
    r
}

/// `o` is an outcome of a random draw of the keys to place: without specials,
/// all keys in some order; with specials, their places filled by
/// `special_pairs_of` in some orders, the other places by the normal keys in
/// some order, and `None` where the normal keys run out first.
pub open spec fn is_draw(
    tochars: Seq<char>,
    sv: Seq<(Seq<char>, Seq<usize>)>,
    normals: Seq<char>,
    o: Option<Seq<char>>,
) -> bool {
    if sv.len() == 0 {
        exists|p: Seq<u64>|
            chain::is_order(p, tochars.len() as nat) && o == Some(ordered_by(tochars, p))
    } else {
        exists|orders: Seq<Seq<u64>>, p: Seq<u64>|
            orders_fit(sv, orders) && chain::is_order(p, normals.len() as nat) && drawn_from(
                normals,
                p,
                special_pairs_of(sv, tochars, orders),
                o,
            )
    }
}

/// `o` is what `perm_specify` gives for the normal keys in order `p` and the pairs.
pub open spec fn drawn_from(normals: Seq<char>, p: Seq<u64>, pairs: Seq<(usize, char)>, o: Option<Seq<char>>) -> bool {
    let nm = ordered_by(normals, p);
    match assembled(nm, pairs, (nm.len() + slot_count(pairs)) as nat) {
        Some((w, _)) => o == Some(w),
        None => o is None,
    }
}

pub open spec fn opt_view(o: Option<Vec<char>>) -> Option<Seq<char>> {
    match o {
        Some(v) => Some(v@),
        None => None,
    }
}

/// A random permutation of the keys to place: without specials all keys in a
/// random order; with specials their places get the first keys in a random
/// order and the normal keys, in a random order, fill the rest. `None` when
/// the normal keys run out before the places do.
pub fn random_specialized(
    sdc: &SwapDictChars,
    slots: &Vec<(Vec<char>, Vec<usize>)>,
    normalchars: &Vec<char>,
) -> (r: Option<Vec<char>>)
    requires
        sdc.tochars.len() <= 0xffff_ffff,
        normalchars.len() <= 0xffff_ffff,
        specials_fit(slots_view(slots@), sdc.tochars.len() as nat),
        normalchars.len() + places_total(slots_view(slots@)) <= usize::MAX,
    ensures
        is_draw(sdc.tochars@, slots_view(slots@), normalchars@, opt_view(r)),
{
    if slots.len() == 0 {
        let v = pure_perm(&sdc.tochars);
        return Some(v);
    }
    let pairs = special_pairs(&sdc.tochars, slots);
    let ghost orders = choose|orders: Seq<Seq<u64>>|
        orders_fit(slots_view(slots@), orders) && pairs@ == special_pairs_of(
            slots_view(slots@),
            sdc.tochars@,
            orders,
        );
    proof {
        lemma_special_pairs_len(slots_view(slots@), sdc.tochars@, orders);
    }
    let normalmix = pure_perm(normalchars);
    let ghost p = choose|p: Seq<u64>|
        chain::is_order(p, normalchars.len() as nat) && normalmix@ == ordered_by(normalchars@, p);
    let r = perm_specify(&normalmix, &pairs);
    assert(drawn_from(normalchars@, p, pairs@, opt_view(r)));
    r
}

/// The score that a permutation gets, where the dictionary can be scored under it.
pub open spec fn perm_scored(
    sdc: SwapDictChars,
    d: Seq<(String, Vec<crate::spell::SpecifySpelling>)>,
    sp: ShuangPinTables,
    fls: Seq<Seq<char>>,
    perm: Seq<char>,
    score: usize,
) -> bool {
    let sd = perm_swap_dict(sdc.fromchars@, perm, sdc.predefined@);
    repeat::scoring_ready(d, sd, sp, fls) && score == scored_words(d, sd, sp, fls).0
}

/// A chunk of `chunk` random permutations (see `random_specialized`), each with
/// its score. `None` when a draw runs out of normal keys or the dictionary
/// cannot be scored under a drawn permutation.
pub fn perm_chunk(
    sdc: &SwapDictChars,
    slots: &Vec<(Vec<char>, Vec<usize>)>,
    normalchars: &Vec<char>,
    dict: &YongDictWordSpells,
    shuangpin: &ShuangPinTables,
    fluents: &Vec<String>,
    chunk: usize,
) -> (r: Option<Vec<(Vec<char>, usize)>>)
    requires
        sdc.tochars.len() <= 0xffff_ffff,
        normalchars.len() <= 0xffff_ffff,
        specials_fit(slots_view(slots@), sdc.tochars.len() as nat),
        normalchars.len() + places_total(slots_view(slots@)) <= usize::MAX,
    ensures
        match r {
            Some(v) => v.len() == chunk && forall|i: int|
                0 <= i < v.len() ==> {
                    &&& is_draw(sdc.tochars@, slots_view(slots@), normalchars@, Some((#[trigger] v@[i]).0@))
                    &&& perm_scored(*sdc, dict@, *shuangpin, text::strs(fluents@), v@[i].0@, v@[i].1)
                },
            None => exists|o: Option<Seq<char>>|
                is_draw(sdc.tochars@, slots_view(slots@), normalchars@, o) && (o is None || !repeat::scoring_ready(
                    dict@,
                    perm_swap_dict(sdc.fromchars@, o->0, sdc.predefined@),
                    *shuangpin,
                    text::strs(fluents@),
                )),
        },
{
    let mut results: Vec<(Vec<char>, usize)> = Vec::new();
    while results.len() < chunk
        invariant
            results.len() <= chunk,
            sdc.tochars.len() <= 0xffff_ffff,
            normalchars.len() <= 0xffff_ffff,
            specials_fit(slots_view(slots@), sdc.tochars.len() as nat),
            normalchars.len() + places_total(slots_view(slots@)) <= usize::MAX,
            forall|i: int|
                0 <= i < results.len() ==> {
                    &&& is_draw(sdc.tochars@, slots_view(slots@), normalchars@, Some((#[trigger] results@[i]).0@))
                    &&& perm_scored(*sdc, dict@, *shuangpin, text::strs(fluents@), results@[i].0@, results@[i].1)
                },
        decreases chunk - results.len(),
    {
        let drawn = random_specialized(sdc, slots, normalchars);
        let d = match drawn {
            Some(d) => d,
            None => {
                assert(is_draw(sdc.tochars@, slots_view(slots@), normalchars@, opt_view(drawn)));
                return None;
            },
        };
        match perm_action(sdc, &d, dict, shuangpin, fluents) {
            Some((score, _)) => {
                results.push((d, score));
            },
            None => {
                assert(is_draw(sdc.tochars@, slots_view(slots@), normalchars@, Some(d@)));
                return None;
            },
        }
    }
    Some(results)
}


/// The order of pairs of texts, as a relation.
pub open spec fn str_pair_leq() -> spec_fn((Seq<char>, Seq<char>), (Seq<char>, Seq<char>)) -> bool {
    |a: (Seq<char>, Seq<char>), b: (Seq<char>, Seq<char>)| str_pair_le(a, b)
}

/// The order of characters, as a relation.
pub open spec fn char_leq() -> spec_fn(char, char) -> bool {
    |a: char, b: char| a <= b
}

proof fn lemma_str_pair_total()
    ensures
        vstd::relations::total_ordering(str_pair_leq()),
{
    let r = str_pair_leq();
    assert forall|x: (Seq<char>, Seq<char>)| #[trigger] r(x, x) by {
        util::lemma_lex_order(x.1, x.1, x.1);
    }
    assert forall|x: (Seq<char>, Seq<char>), y: (Seq<char>, Seq<char>)|
        #[trigger] r(x, y) && #[trigger] r(y, x) implies x == y by {
        util::lemma_lex_order(x.0, y.0, x.0);
        util::lemma_lex_order(x.1, y.1, x.1);
        util::lemma_lex_order(y.0, x.0, y.0);
        util::lemma_lex_order(y.1, x.1, y.1);
    }
    assert forall|x: (Seq<char>, Seq<char>), y: (Seq<char>, Seq<char>), z: (Seq<char>, Seq<char>)|
        #[trigger] r(x, y) && #[trigger] r(y, z) implies r(x, z) by {
        util::lemma_lex_order(x.0, y.0, z.0);
        util::lemma_lex_order(z.1, x.1, y.1);
        util::lemma_lex_order(x.1, y.1, z.1);
        util::lemma_lex_order(y.1, z.1, x.1);
    }
    assert forall|x: (Seq<char>, Seq<char>), y: (Seq<char>, Seq<char>)|
        #[trigger] r(x, y) || #[trigger] r(y, x) by {
        util::lemma_lex_order(x.0, y.0, x.0);
        util::lemma_lex_order(x.1, y.1, x.1);
    }
}

proof fn lemma_insert_str_pair(s: Seq<(Seq<char>, Seq<char>)>, x: (Seq<char>, Seq<char>))
    requires
        vstd::relations::sorted_by(s, str_pair_leq()),
    ensures
        vstd::relations::sorted_by(insert_str_pair(s, x), str_pair_leq()),
        insert_str_pair(s, x).to_multiset() == s.to_multiset().insert(x),
    decreases s.len(),
{
    broadcast use vstd::multiset::group_multiset_axioms, vstd::seq_lib::group_to_multiset_ensures;

    let r = str_pair_leq();
    lemma_str_pair_total();
    let res = insert_str_pair(s, x);
    if s.len() == 0 {
        assert(res =~= Seq::<(Seq<char>, Seq<char>)>::empty().push(x));
    } else if str_pair_le(x, s[0]) {
        assert forall|i: int, j: int| 0 <= i < j < res.len() implies #[trigger] r(res[i], res[j]) by {
            if i == 0 {
                if j > 1 {
                    assert(r(s[0], s[j - 1]));
                }
                assert(r(x, s[0]));
            } else {
                assert(r(s[i - 1], s[j - 1]));
            }
        }
        vstd::seq_lib::lemma_multiset_commutative(seq![x], s);
        assert(seq![x] =~= Seq::<(Seq<char>, Seq<char>)>::empty().push(x));
    } else {
        assert(!r(x, s[0]));
        assert(r(s[0], x));
        let t = s.skip(1);
        assert forall|i: int, j: int| 0 <= i < j < t.len() implies #[trigger] r(t[i], t[j]) by {
            assert(t[i] == s[i + 1] && t[j] == s[j + 1]);
            assert(r(s[i + 1], s[j + 1]));
        }
        lemma_insert_str_pair(t, x);
        let it = insert_str_pair(t, x);
        assert(res == seq![s[0]] + it);
        assert forall|k: int| 0 <= k < it.len() implies #[trigger] r(s[0], it[k]) by {
            assert(it.to_multiset().count(it[k]) > 0);
            assert(t.to_multiset().insert(x).count(it[k]) > 0);
            if it[k] != x {
                assert(t.to_multiset().count(it[k]) > 0);
                assert(t.contains(it[k]));
                let q = choose|q: int| 0 <= q < t.len() && t[q] == it[k];
                assert(s[q + 1] == t[q]);
                assert(r(s[0], s[q + 1]));
            }
        }
        assert forall|i: int, j: int| 0 <= i < j < res.len() implies #[trigger] r(res[i], res[j]) by {
            if i == 0 {
                assert(res[j] == it[j - 1]);
                assert(r(s[0], it[j - 1]));
            } else {
                assert(res[i] == it[i - 1] && res[j] == it[j - 1]);
                assert(r(it[i - 1], it[j - 1]));
            }
        }
        vstd::seq_lib::lemma_multiset_commutative(seq![s[0]], it);
        vstd::seq_lib::lemma_multiset_commutative(seq![s[0]], t);
        assert(seq![s[0]] + t =~= s);
    }
}

proof fn lemma_sort_str_pairs(s: Seq<(Seq<char>, Seq<char>)>)
    ensures
        vstd::relations::sorted_by(sort_str_pairs(s), str_pair_leq()),
        sort_str_pairs(s).to_multiset() == s.to_multiset(),
    decreases s.len(),
{
    broadcast use vstd::multiset::group_multiset_axioms, vstd::seq_lib::group_to_multiset_ensures;

    if s.len() == 0 {
        assert(vstd::relations::sorted_by(Seq::<(Seq<char>, Seq<char>)>::empty(), str_pair_leq()));
    } else {
        lemma_sort_str_pairs(s.drop_last());
        lemma_insert_str_pair(sort_str_pairs(s.drop_last()), s.last());
        assert(s.drop_last().push(s.last()) =~= s);
    }
}

/// Texts with the same characters sort to the same text.
proof fn lemma_sort_chars_same(a: Seq<char>, b: Seq<char>)
    requires
        a.to_multiset() == b.to_multiset(),
    ensures
        sort_chars(a) == sort_chars(b),
{
    let r = char_leq();
    lemma_sort_chars(a);
    lemma_sort_chars(b);
    assert(vstd::relations::total_ordering(r)) by {
        assert forall|x: char| #[trigger] r(x, x) by {}
        assert forall|x: char, y: char| #[trigger] r(x, y) && #[trigger] r(y, x) implies x == y by {}
        assert forall|x: char, y: char, z: char| #[trigger] r(x, y) && #[trigger] r(y, z) implies r(x, z) by {}
        assert forall|x: char, y: char| #[trigger] r(x, y) || #[trigger] r(y, x) by {}
    }
    let sa = sort_chars(a);
    let sb = sort_chars(b);
    assert forall|i: int, j: int| 0 <= i < j < sa.len() implies #[trigger] r(sa[i], sa[j]) by {
        assert(sa[i] <= sa[j]);
    }
    assert forall|i: int, j: int| 0 <= i < j < sb.len() implies #[trigger] r(sb[i], sb[j]) by {
        assert(sb[i] <= sb[j]);
    }
    vstd::seq_lib::lemma_sorted_unique(sa, sb, r);
}

/// Specials that are the same up to their order sort their keys the same way.
proof fn lemma_sorted_specials_multiset(a: Seq<(Seq<char>, Seq<char>)>, b: Seq<(Seq<char>, Seq<char>)>)
    requires
        a.to_multiset() == b.to_multiset(),
    ensures
        sorted_specials(a).to_multiset() == sorted_specials(b).to_multiset(),
    decreases a.len(),
{
    broadcast use vstd::multiset::group_multiset_axioms, vstd::seq_lib::group_to_multiset_ensures;

    if a.len() == 0 {
        assert(b.len() == 0) by {
            assert(b.to_multiset().len() == b.len());
        }
        assert(sorted_specials(a) =~= Seq::<(Seq<char>, Seq<char>)>::empty());
        assert(sorted_specials(b) =~= Seq::<(Seq<char>, Seq<char>)>::empty());
    } else {
        let x = a.last();
        let a2 = a.drop_last();
        assert(a2.push(x) =~= a);
        assert(a.to_multiset().count(x) > 0);
        assert(b.contains(x));
        let i = choose|i: int| 0 <= i < b.len() && b[i] == x;
        let b2 = b.remove(i);
        vstd::seq_lib::to_multiset_remove(b, i);
        assert(a2.to_multiset() =~= a.to_multiset().remove(x));
        lemma_sorted_specials_multiset(a2, b2);
        let y = (sort_chars(x.0), sort_chars(x.1));
        assert(sorted_specials(a) =~= sorted_specials(a2).push(y));
        let sbv = sorted_specials(b);
        assert(sbv[i] == y);
        assert(sbv.remove(i) =~= sorted_specials(b2));
        vstd::seq_lib::to_multiset_remove(sbv, i);
        assert(sbv.to_multiset().count(y) > 0) by {
            assert(sbv.contains(y));
        }
        assert(sbv.to_multiset() =~= sbv.to_multiset().remove(y).insert(y));
    }
}

/// The name of a run over specials does not depend on the order in which the
/// specials are given.
pub proof fn lemma_special_name_specials_order(
    base: Seq<char>,
    pre: Seq<(char, char)>,
    a: Seq<(Seq<char>, Seq<char>)>,
    b: Seq<(Seq<char>, Seq<char>)>,
)
    requires
        a.to_multiset() == b.to_multiset(),
    ensures
        special_name_of(base, pre, a) == special_name_of(base, pre, b),
{
    broadcast use vstd::multiset::group_multiset_axioms;

    lemma_sorted_specials_multiset(a, b);
    let na = sorted_specials(a);
    let nb = sorted_specials(b);
    lemma_sort_str_pairs(na);
    lemma_sort_str_pairs(nb);
    lemma_str_pair_total();
    vstd::seq_lib::lemma_sorted_unique(sort_str_pairs(na), sort_str_pairs(nb), str_pair_leq());
    assert(sort_str_pairs(na) == sort_str_pairs(nb));
}

/// Nor does it depend on the order of the keys, or of the slot keys, within
/// each special.
pub proof fn lemma_special_name_keys_order(
    base: Seq<char>,
    pre: Seq<(char, char)>,
    a: Seq<(Seq<char>, Seq<char>)>,
    b: Seq<(Seq<char>, Seq<char>)>,
)
    requires
        a.len() == b.len(),
        forall|i: int|
            0 <= i < a.len() ==> (#[trigger] a[i]).0.to_multiset() == b[i].0.to_multiset() && a[i].1.to_multiset()
                == b[i].1.to_multiset(),
    ensures
        special_name_of(base, pre, a) == special_name_of(base, pre, b),
{
    assert forall|i: int| 0 <= i < a.len() implies #[trigger] sorted_specials(a)[i] == sorted_specials(b)[i] by {
        lemma_sort_chars_same(a[i].0, b[i].0);
        lemma_sort_chars_same(a[i].1, b[i].1);
    }
    assert(sorted_specials(a) =~= sorted_specials(b));
}


proof fn lemma_keyboard_keys_distinct()
    ensures
        keyboard_keys().no_duplicates(),
{
    let k = keyboard_keys();
    let codes = seq![
        'q', 'w', 'e', 'r', 't', 'y', 'u', 'i', 'o', 'p', 'a', 's', 'd', 'f', 'g', 'h', 'j', 'k', 'l',
        'z', 'x', 'c', 'b', 'm', 'n', 'v',
    ];
    assert(k == codes);
    assert forall|i: int, j: int| 0 <= i < k.len() && 0 <= j < k.len() && i != j implies k[i] != k[j] by {
        assert(k[i] == codes[i] && k[j] == codes[j]);
    }
}

proof fn lemma_free_keys_distinct(ks: Seq<char>, swap: Seq<(Seq<char>, Seq<char>)>)
    requires
        ks.no_duplicates(),
    ensures
        free_keys_of(ks, swap).no_duplicates(),
        forall|c: char| free_keys_of(ks, swap).contains(c) ==> ks.contains(c),
    decreases ks.len(),
{
    if ks.len() > 0 {
        let a = ks.drop_last();
        assert forall|i: int, j: int| 0 <= i < a.len() && 0 <= j < a.len() && i != j implies a[i] != a[j] by {
            assert(a[i] == ks[i] && a[j] == ks[j]);
        }
        lemma_free_keys_distinct(a, swap);
        let p = free_keys_of(a, swap);
        let r = free_keys_of(ks, swap);
        let e = if dict::lookup(swap, seq![ks.last()]) is None {
            seq![ks.last()]
        } else {
            Seq::<char>::empty()
        };
        assert(r == p + e);
        assert(e.len() <= 1 && (e.len() == 1 ==> e[0] == ks.last()));
        assert(!a.contains(ks.last())) by {
            if a.contains(ks.last()) {
                let q = choose|q: int| 0 <= q < a.len() && a[q] == ks.last();
                assert(ks[q] == ks[ks.len() - 1]);
            }
        }
        assert forall|c: char| r.contains(c) implies ks.contains(c) by {
            let q = choose|q: int| 0 <= q < r.len() && r[q] == c;
            if q < p.len() {
                assert(r[q] == p[q]);
                assert(p.contains(c));
                assert(a.contains(c));
                let w = choose|w: int| 0 <= w < a.len() && a[w] == c;
                assert(ks[w] == c);
            } else {
                assert(r[q] == e[q - p.len()]);
                assert(c == ks.last());
                assert(ks[ks.len() - 1] == c);
            }
        }
        assert forall|i: int, j: int| 0 <= i < r.len() && 0 <= j < r.len() && i != j implies r[i] != r[j] by {
            if i < p.len() && j < p.len() {
                assert(r[i] == p[i] && r[j] == p[j]);
            } else if i < p.len() {
                assert(r[i] == p[i] && r[j] == e[j - p.len()]);
                assert(p.contains(p[i]));
            } else if j < p.len() {
                assert(r[j] == p[j] && r[i] == e[i - p.len()]);
                assert(p.contains(p[j]));
            }
        }
    }
}


proof fn lemma_keep_out_distinct(s: Seq<char>, a: Seq<char>, b: Seq<char>)
    requires
        s.no_duplicates(),
    ensures
        keep_out(s, a, b).no_duplicates(),
        forall|c: char| keep_out(s, a, b).contains(c) ==> s.contains(c),
    decreases s.len(),
{
    if s.len() > 0 {
        let t = s.drop_last();
        assert forall|i: int, j: int| 0 <= i < t.len() && 0 <= j < t.len() && i != j implies t[i] != t[j] by {
            assert(t[i] == s[i] && t[j] == s[j]);
        }
        lemma_keep_out_distinct(t, a, b);
        let p = keep_out(t, a, b);
        let r = keep_out(s, a, b);
        let e = if !a.contains(s.last()) && !b.contains(s.last()) {
            seq![s.last()]
        } else {
            Seq::<char>::empty()
        };
        assert(r == p + e);
        assert(e.len() <= 1 && (e.len() == 1 ==> e[0] == s.last()));
        assert(!t.contains(s.last())) by {
            if t.contains(s.last()) {
                let q = choose|q: int| 0 <= q < t.len() && t[q] == s.last();
                assert(s[q] == s[s.len() - 1]);
            }
        }
        assert forall|c: char| r.contains(c) implies s.contains(c) by {
            let q = choose|q: int| 0 <= q < r.len() && r[q] == c;
            if q < p.len() {
                assert(r[q] == p[q]);
                assert(p.contains(c));
                assert(t.contains(c));
                let w = choose|w: int| 0 <= w < t.len() && t[w] == c;
                assert(s[w] == c);
            } else {
                assert(r[q] == e[q - p.len()]);
                assert(s[s.len() - 1] == c);
            }
        }
        assert forall|i: int, j: int| 0 <= i < r.len() && 0 <= j < r.len() && i != j implies r[i] != r[j] by {
            if i < p.len() && j < p.len() {
                assert(r[i] == p[i] && r[j] == p[j]);
            } else if i < p.len() {
                assert(r[i] == p[i] && r[j] == e[j - p.len()]);
                assert(p.contains(p[i]));
            } else if j < p.len() {
                assert(r[j] == p[j] && r[i] == e[i - p.len()]);
                assert(p.contains(p[j]));
            }
        }
    }
}

} // verus!
