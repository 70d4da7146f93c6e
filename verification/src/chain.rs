//! Key layouts (which keyboard key types which Cangjie key), their text forms,
//! and the scoring of a layout by how many typed key chains it makes awkward.
use crate::cmap::{self, CharMap, cfind, cinsert, cmap_from, cvalue, flip_pairs};
use crate::dict::{self, put_entry};
use crate::kt::{self, SwapKeyDict, YongDictWordSpells, trim_chars};
use crate::out::{self, WithMakeWordSpecifier, join_chars, specifier_to_wordspells};
use crate::py::ShuangPinTables;
use crate::repeat::{self, score_swap_dict};
use crate::util;
use crate::text::{
    self, CharClass, chars_of, decimal_chars, lines_of, parse_usize, split_pieces, split_tokens,
    string_of,
};
use permutation_iterator::Permutor;
use vstd::prelude::*;

verus! {

/// Order of pairs by their first character, then their second.
pub open spec fn pair_le(a: (char, char), b: (char, char)) -> bool {
    a.0 < b.0 || (a.0 == b.0 && a.1 <= b.1)
}

/// `x` placed before the first pair that is not below it.
pub open spec fn insert_pair(s: Seq<(char, char)>, x: (char, char)) -> Seq<(char, char)>
    decreases s.len(),
{
    if s.len() == 0 {
        seq![x]
    } else if pair_le(x, s[0]) {
        seq![x] + s
    } else {
        seq![s[0]] + insert_pair(s.skip(1), x)
    }
}

/// The pairs in order (an insertion sort).
pub open spec fn sort_pairs(s: Seq<(char, char)>) -> Seq<(char, char)>
    decreases s.len(),
{
    if s.len() == 0 {
        seq![]
    } else {
        insert_pair(sort_pairs(s.drop_last()), s.last())
    }
}

pub open spec fn pairs_sorted(s: Seq<(char, char)>) -> bool {
    forall|i: int, j: int| 0 <= i < j < s.len() ==> pair_le(#[trigger] s[i], #[trigger] s[j])
}

/// The two characters of a pair, as a two-letter word.
pub open spec fn pair_word(p: (char, char)) -> Seq<char> {
    seq![p.0, p.1]
}

/// The one-line text of a layout: its pairs as two-letter words in order,
/// joined by `_`.
pub open spec fn layout_text(m: Seq<(char, char)>) -> Seq<char> {
    out::join(sort_pairs(m).map_values(|p: (char, char)| pair_word(p)), seq!['_'])
}

/// The file text of a layout: a line `key value` for each pair, in the map's order.
pub open spec fn layout_file_text(m: Seq<(char, char)>) -> Seq<char> {
    out::join(m.map_values(|p: (char, char)| seq![p.0, ' ', p.1]), seq!['\n']) + seq!['\n']
}

proof fn lemma_insert_pair_at(s: Seq<(char, char)>, x: (char, char), p: int)
    requires
        0 <= p <= s.len(),
        forall|j: int| 0 <= j < p ==> !pair_le(x, #[trigger] s[j]),
        p < s.len() ==> pair_le(x, s[p]),
    ensures
        insert_pair(s, x) == s.take(p) + seq![x] + s.skip(p),
    decreases s.len(),
{
    if s.len() == 0 {
        assert(s.take(p) + seq![x] + s.skip(p) =~= seq![x]);
    } else if p == 0 {
        assert(s.take(p) + seq![x] + s.skip(p) =~= seq![x] + s);
    } else {
        assert(!pair_le(x, s[0]));
        let t = s.skip(1);
        assert forall|j: int| 0 <= j < p - 1 implies !pair_le(x, #[trigger] t[j]) by {
            assert(t[j] == s[j + 1]);
        }
        lemma_insert_pair_at(t, x, p - 1);
        assert(seq![s[0]] + (t.take(p - 1) + seq![x] + t.skip(p - 1)) =~= s.take(p) + seq![x]
            + s.skip(p));
    }
}

/// Inserting into sorted pairs keeps them sorted and adds the one pair.
proof fn lemma_insert_pair(s: Seq<(char, char)>, x: (char, char))
    requires
        pairs_sorted(s),
    ensures
        pairs_sorted(insert_pair(s, x)),
        insert_pair(s, x).to_multiset() == s.to_multiset().insert(x),
    decreases s.len(),
{
    broadcast use vstd::multiset::group_multiset_axioms, vstd::seq_lib::group_to_multiset_ensures;

    let r = insert_pair(s, x);
    if s.len() == 0 {
        assert(r =~= seq![x]);
        assert(seq![x] =~= Seq::<(char, char)>::empty().push(x));
    } else if pair_le(x, s[0]) {
        assert forall|i: int, j: int| 0 <= i < j < r.len() implies pair_le(
            #[trigger] r[i],
            #[trigger] r[j],
        ) by {
            if i == 0 {
                assert(pair_le(s[0], s[j - 1]) || j - 1 == 0);
            }
        }
        vstd::seq_lib::lemma_multiset_commutative(seq![x], s);
        assert(seq![x] =~= Seq::<(char, char)>::empty().push(x));
    } else {
        let t = s.skip(1);
        assert forall|i: int, j: int| 0 <= i < j < t.len() implies pair_le(
            #[trigger] t[i],
            #[trigger] t[j],
        ) by {
            assert(t[i] == s[i + 1] && t[j] == s[j + 1]);
        }
        lemma_insert_pair(t, x);
        let it = insert_pair(t, x);
        assert(r == seq![s[0]] + it);
        assert forall|k: int| 0 <= k < it.len() implies pair_le(s[0], #[trigger] it[k]) by {
            assert(it.to_multiset().count(it[k]) > 0);
            assert(t.to_multiset().insert(x).count(it[k]) > 0);
            if it[k] != x {
                assert(t.to_multiset().count(it[k]) > 0);
                assert(t.contains(it[k]));
                let q = choose|q: int| 0 <= q < t.len() && t[q] == it[k];
                assert(s[q + 1] == t[q]);
            }
        }
        assert forall|i: int, j: int| 0 <= i < j < r.len() implies pair_le(
            #[trigger] r[i],
            #[trigger] r[j],
        ) by {
            if i == 0 {
                assert(r[j] == it[j - 1]);
            } else {
                assert(r[i] == it[i - 1] && r[j] == it[j - 1]);
            }
        }
        vstd::seq_lib::lemma_multiset_commutative(seq![s[0]], it);
        vstd::seq_lib::lemma_multiset_commutative(seq![s[0]], t);
        assert(seq![s[0]] + t =~= s);
    }
}

/// The sorted pairs are in order and are the same pairs.
pub proof fn lemma_sort_pairs(s: Seq<(char, char)>)
    ensures
        pairs_sorted(sort_pairs(s)),
        sort_pairs(s).to_multiset() == s.to_multiset(),
    decreases s.len(),
{
    broadcast use vstd::multiset::group_multiset_axioms, vstd::seq_lib::group_to_multiset_ensures;

    if s.len() > 0 {
        lemma_sort_pairs(s.drop_last());
        lemma_insert_pair(sort_pairs(s.drop_last()), s.last());
        assert(s.drop_last().push(s.last()) =~= s);
    }
}

fn pair_le_exec(a: (char, char), b: (char, char)) -> (r: bool)
    ensures
        r == pair_le(a, b),
{
    a.0 < b.0 || (a.0 == b.0 && a.1 <= b.1)
}

pub fn sort_layout(m: &Vec<(char, char)>) -> (r: Vec<(char, char)>)
    ensures
        r@ == sort_pairs(m@),
{
    let mut r: Vec<(char, char)> = Vec::new();
    let mut i: usize = 0;
    while i < m.len()
        invariant
            i <= m.len(),
            r@ == sort_pairs(m@.take(i as int)),
        decreases m.len() - i,
    {
        let x = m[i];
        proof {
            assert(m@.take(i + 1).drop_last() =~= m@.take(i as int));
        }
        let mut p: usize = 0;
        while p < r.len() && !pair_le_exec(x, r[p])
            invariant
                p <= r.len(),
                forall|j: int| 0 <= j < p ==> !pair_le(x, #[trigger] r@[j]),
            decreases r.len() - p,
        {
            p = p + 1;
        }
        proof {
            lemma_insert_pair_at(r@, x, p as int);
        }
        let ghost r0 = r@;
        r.insert(p, x);
        assert(r@ =~= r0.take(p as int) + seq![x] + r0.skip(p as int));
        i = i + 1;
    }
    assert(m@.take(m.len() as int) =~= m@);
    r
}

/// The layout as one line: each key with its value, in order of keys, joined by `_`.
pub fn keytocjchar_tostring(keytocjchar: &CharMap) -> (s: String)
    ensures
        s@ == layout_text(keytocjchar@),
{
    let sorted = sort_layout(keytocjchar);
    let mut words: Vec<Vec<char>> = Vec::new();
    let mut i: usize = 0;
    while i < sorted.len()
        invariant
            i <= sorted.len(),
            words.deep_view() == sorted@.take(i as int).map_values(|p: (char, char)| pair_word(p)),
        decreases sorted.len() - i,
    {
        let mut w: Vec<char> = Vec::new();
        w.push(sorted[i].0);
        w.push(sorted[i].1);
        let ghost d = words.deep_view();
        proof {
            text::lemma_chars_deep_view(&w);
        }
        assert(w@ =~= pair_word(sorted@[i as int]));
        words.push(w);
        assert(words.deep_view() =~= d.push(pair_word(sorted@[i as int])));
        i = i + 1;
        assert(sorted@.take(i as int).map_values(|p: (char, char)| pair_word(p)) =~= d.push(
            pair_word(sorted@[i - 1]),
        ));
    }
    assert(sorted@.take(sorted.len() as int) =~= sorted@);
    let mut sep: Vec<char> = Vec::new();
    sep.push('_');
    assert(sep@ =~= seq!['_']);
    string_of(&join_chars(&words, &sep))
}

/// The layout as a file: a line `key value` for each pair.
pub fn keytocjchar_to_file_format(keytocjchar: &CharMap) -> (s: String)
    ensures
        s@ == layout_file_text(keytocjchar@),
{
    let mut lines: Vec<Vec<char>> = Vec::new();
    let mut i: usize = 0;
    while i < keytocjchar.len()
        invariant
            i <= keytocjchar.len(),
            lines.deep_view() == keytocjchar@.take(i as int).map_values(
                |p: (char, char)| seq![p.0, ' ', p.1],
            ),
        decreases keytocjchar.len() - i,
    {
        let mut w: Vec<char> = Vec::new();
        w.push(keytocjchar[i].0);
        w.push(' ');
        w.push(keytocjchar[i].1);
        let ghost d = lines.deep_view();
        proof {
            text::lemma_chars_deep_view(&w);
        }
        assert(w@ =~= seq![keytocjchar@[i as int].0, ' ', keytocjchar@[i as int].1]);
        lines.push(w);
        assert(lines.deep_view() =~= d.push(w@));
        i = i + 1;
        assert(lines.deep_view() =~= keytocjchar@.take(i as int).map_values(
            |p: (char, char)| seq![p.0, ' ', p.1],
        ));
    }
    assert(keytocjchar@.take(keytocjchar.len() as int) =~= keytocjchar@);
    let mut nl: Vec<char> = Vec::new();
    nl.push('\n');
    assert(nl@ =~= seq!['\n']);
    let mut r = join_chars(&lines, &nl);
    r.push('\n');
    string_of(&r)
}

/// The pairs of the two-letter words among `ps`.
pub open spec fn two_letter_pairs(ps: Seq<Seq<char>>) -> Seq<(char, char)>
    decreases ps.len(),
{
    if ps.len() == 0 {
        seq![]
    } else {
        two_letter_pairs(ps.drop_last()) + if ps.last().len() == 2 {
            seq![(ps.last()[0], ps.last()[1])]
        } else {
            Seq::<(char, char)>::empty()
        }
    }
}

/// The layout that a one-line text names: of the `_`-separated words of the
/// trimmed text, each two-letter word is a key and its value; a later word of
/// a key replaces an earlier one.
pub open spec fn layout_of_text(s: Seq<char>) -> Seq<(char, char)> {
    cmap::cput_all(two_letter_pairs(text::pieces(kt::trim(s), '_')))
}

/// Reads a layout from its one-line text.
pub fn string_to_keytocjchar(underline_separeted: &str) -> (r: CharMap)
    ensures
        r@ == layout_of_text(underline_separeted@),
        cmap::cunique(r@),
{
    let cs = chars_of(underline_separeted);
    let t = trim_chars(&cs);
    let ps = split_pieces(&t, '_');
    let mut pairs: Vec<(char, char)> = Vec::new();
    let mut i: usize = 0;
    while i < ps.len()
        invariant
            i <= ps.len(),
            pairs@ == two_letter_pairs(ps.deep_view().take(i as int)),
        decreases ps.len() - i,
    {
        proof {
            text::lemma_chars_deep_view(&ps@[i as int]);
            assert(ps.deep_view().take(i + 1).drop_last() =~= ps.deep_view().take(i as int));
            assert(ps.deep_view()[i as int] == ps@[i as int].deep_view());
        }
        let p = &ps[i];
        if p.len() == 2 {
            pairs.push((p[0], p[1]));
        }
        i = i + 1;
        assert(pairs@ =~= two_letter_pairs(ps.deep_view().take(i as int)));
    }
    assert(ps.deep_view().take(ps.len() as int) =~= ps.deep_view());
    cmap_from(&pairs)
}

/// Each pair turned into a swap entry: the value, as a one-letter string, keyed
/// to the key.
pub open spec fn swap_entries(m: Seq<(char, char)>) -> Seq<(Seq<char>, Seq<char>)> {
    m.map_values(|p: (char, char)| (seq![p.1], seq![p.0]))
}

/// The swap dictionary of a layout: each Cangjie key (a value of the layout)
/// is replaced by the keyboard key that types it; a later pair of a Cangjie key
/// replaces an earlier one.
pub fn charchar_to_swap_dict(literal_swap_dict: &CharMap) -> (r: SwapKeyDict)
    ensures
        kt::sd_view(r@) == dict::put_all(swap_entries(literal_swap_dict@)),
{
    let mut r: SwapKeyDict = Vec::new();
    let mut i: usize = 0;
    while i < literal_swap_dict.len()
        invariant
            i <= literal_swap_dict.len(),
            dict::vview(r@) == dict::put_all(swap_entries(literal_swap_dict@.take(i as int))),
        decreases literal_swap_dict.len() - i,
    {
        proof {
            assert(swap_entries(literal_swap_dict@.take(i + 1)).drop_last() =~= swap_entries(
                literal_swap_dict@.take(i as int),
            ));
        }
        let (k, v) = literal_swap_dict[i];
        let ks = text::char_string(v);
        let vs = text::char_string(k);
        put_entry(&mut r, ks, vs);
        i = i + 1;
    }
    assert(literal_swap_dict@.take(literal_swap_dict.len() as int) =~= literal_swap_dict@);
    assert(kt::sd_view(r@) =~= dict::vview(r@));
    r
}

/// The chains and counts that a line of a statistics file holds: its words
/// taken two by two, a chain and its count; a pair whose count is no numeral
/// counts for nothing, and an odd last word is left over.
pub open spec fn chain_counts(ws: Seq<Seq<char>>) -> Seq<(Seq<char>, usize)>
    decreases ws.len(),
{
    if ws.len() < 2 {
        seq![]
    } else {
        (match text::usize_of(ws[1]) {
            Some(u) => seq![(ws[0], u as usize)],
            None => Seq::<(Seq<char>, usize)>::empty(),
        }) + chain_counts(ws.skip(2))
    }
}

/// The chains and counts of the lines, in order.
pub open spec fn stat_pairs(ls: Seq<Seq<char>>) -> Seq<(Seq<char>, usize)>
    decreases ls.len(),
{
    if ls.len() == 0 {
        seq![]
    } else {
        stat_pairs(ls.drop_last()) + chain_counts(text::tokens(ls.last(), CharClass::Whitespace))
    }
}

/// Key-chain statistics: each chain with its count; a later count of a chain
/// replaces an earlier one.
pub fn get_swap_stats(content: &str) -> (r: Vec<(String, usize)>)
    ensures
        dict::vview(r@) == dict::put_all(stat_pairs(text::lines(content@))),
{
    let ls = lines_of(content);
    let ghost lv = text::strs(ls@);
    let mut r: Vec<(String, usize)> = Vec::new();
    let mut i: usize = 0;
    while i < ls.len()
        invariant
            i <= ls.len(),
            lv == text::strs(ls@),
            dict::vview(r@) == dict::put_all(stat_pairs(lv.take(i as int))),
        decreases ls.len() - i,
    {
        proof {
            assert(lv.take(i + 1).drop_last() =~= lv.take(i as int));
        }
        let ws = split_tokens(&chars_of(ls[i].as_str()), &CharClass::Whitespace);
        let ghost base = stat_pairs(lv.take(i as int));
        let ghost wv = ws.deep_view();
        assert(wv == text::tokens(lv[i as int], CharClass::Whitespace));
        let mut j: usize = 0;
        let ghost mut done: Seq<(Seq<char>, usize)> = seq![];
        assert(wv.skip(0) =~= wv);
        while ws.len() - j >= 2
            invariant
                j <= ws.len(),
                wv == ws.deep_view(),
                done + chain_counts(wv.skip(j as int)) == chain_counts(wv),
                dict::vview(r@) == dict::put_all(base + done),
            decreases ws.len() - j,
        {
            proof {
                text::lemma_chars_deep_view(&ws@[j as int]);
                text::lemma_chars_deep_view(&ws@[j + 1]);
                assert(wv[j as int] == ws@[j as int].deep_view());
                assert(wv[j + 1] == ws@[j + 1].deep_view());
                let rest = wv.skip(j as int);
                assert(rest[0] == wv[j as int] && rest[1] == wv[j + 1]);
                assert(rest.skip(2) =~= wv.skip(j + 2));
            }
            match parse_usize(&ws[j + 1]) {
                Some(u) => {
                    let key = string_of(&ws[j]);
                    let ghost kv = key@;
                    put_entry(&mut r, key, u);
                    proof {
                        let nd = done.push((kv, u));
                        assert((base + nd).drop_last() =~= base + done);
                        assert((base + nd).last() == (kv, u));
                        assert(nd + chain_counts(wv.skip(j + 2)) =~= done + (seq![(kv, u)]
                            + chain_counts(wv.skip(j + 2))));
                        done = nd;
                    }
                },
                None => {
                    proof {
                        assert(Seq::<(Seq<char>, usize)>::empty() + chain_counts(wv.skip(j + 2))
                            =~= chain_counts(wv.skip(j + 2)));
                    }
                },
            }
            j = j + 2;
        }
        proof {
            assert(chain_counts(wv.skip(j as int)) =~= Seq::<(Seq<char>, usize)>::empty());
            assert(done =~= chain_counts(wv));
            assert(stat_pairs(lv.take(i + 1)) =~= base + chain_counts(wv));
        }
        i = i + 1;
    }
    assert(lv.take(ls.len() as int) =~= lv);
    r
}

/// Whether two keys can be typed one after the other without strain. Under
/// the key groups in use every pair of keys passes.
pub fn is_fluent(j: char, k: char) -> (r: bool)
    ensures
        r,
{
    true
}

/// Number of characters of `s` that the map knows.
pub open spec fn mapped_count(s: Seq<char>, m: Seq<(char, char)>) -> nat
    decreases s.len(),
{
    if s.len() == 0 {
        0
    } else {
        mapped_count(s.drop_last(), m) + if cmap::cget(m, s.last()) is Some {
            1nat
        } else {
            0nat
        }
    }
}

/// The penalty of a layout: the counts of the chains that do not map to
/// exactly two keys (a chain of two mapped keys is typed fluently).
pub open spec fn penalty(stats: Seq<(Seq<char>, usize)>, chartokey: Seq<(char, char)>) -> nat
    decreases stats.len(),
{
    if stats.len() == 0 {
        0
    } else {
        penalty(stats.drop_last(), chartokey) + if mapped_count(stats.last().0, chartokey) == 2 {
            0nat
        } else {
            stats.last().1 as nat
        }
    }
}

/// The penalty of a layout, given as the map from Cangjie keys to keyboard keys.
pub fn eval(stats: &Vec<(String, usize)>, chartokey: &CharMap) -> (r: usize)
    requires
        penalty(dict::vview(stats@), chartokey@) <= usize::MAX,
    ensures
        r == penalty(dict::vview(stats@), chartokey@),
{
    let ghost sv = dict::vview(stats@);
    let mut total: usize = 0;
    let mut i: usize = 0;
    while i < stats.len()
        invariant
            i <= stats.len(),
            sv == dict::vview(stats@),
            penalty(sv, chartokey@) <= usize::MAX,
            total == penalty(sv.take(i as int), chartokey@),
        decreases stats.len() - i,
    {
        proof {
            assert(sv.take(i + 1).drop_last() =~= sv.take(i as int));
            lemma_penalty_prefix(sv, chartokey@, i + 1);
        }
        let chain = chars_of(stats[i].0.as_str());
        let mut n: usize = 0;
        let mut c: usize = 0;
        while c < chain.len()
            invariant
                c <= chain.len(),
                n == mapped_count(chain@.take(c as int), chartokey@),
                n <= c,
            decreases chain.len() - c,
        {
            proof {
                assert(chain@.take(c + 1).drop_last() =~= chain@.take(c as int));
            }
            if cvalue(chartokey, chain[c]).is_some() {
                n = n + 1;
            }
            c = c + 1;
        }
        assert(chain@.take(chain.len() as int) =~= chain@);
        let fluent = n == 2 && is_fluent(chain[0], chain[1]);
        if !fluent {
            total = total + stats[i].1;
        }
        i = i + 1;
    }
    assert(sv.take(stats.len() as int) =~= sv);
    total
}

proof fn lemma_penalty_prefix(s: Seq<(Seq<char>, usize)>, m: Seq<(char, char)>, i: int)
    requires
        0 <= i <= s.len(),
    ensures
        penalty(s.take(i), m) <= penalty(s, m),
    decreases s.len() - i,
{
    if i < s.len() {
        lemma_penalty_prefix(s, m, i + 1);
        assert(s.take(i + 1).drop_last() =~= s.take(i));
    } else {
        assert(s.take(i) =~= s);
    }
}


/// A scored layout, with the dictionary tables it was scored on.
#[derive(Debug)]
pub struct Log {
    pub score: usize,
    pub keytochar: CharMap,
    pub yongpaths: Vec<String>,
}

/// Why a line is no log.
#[derive(Debug, Clone, Copy, PartialEq, Eq, Structural)]
pub enum LogError {
    /// the line has no word
    NoScore,
    /// the first word is no decimal numeral of a `usize`
    BadScore,
    /// the line has no second word for the layout
    NoKeyToChar,
}

pub open spec fn log_view(l: Log) -> (nat, Seq<(char, char)>, Seq<Seq<char>>) {
    (l.score as nat, l.keytochar@, text::strs(l.yongpaths@))
}

/// The line of a log: the score, the layout's one-line text and the tables,
/// separated by spaces.
pub open spec fn log_text(score: nat, m: Seq<(char, char)>, paths: Seq<Seq<char>>) -> Seq<char> {
    text::decimal(score) + seq![' '] + layout_text(m) + seq![' '] + out::join(paths, seq![' '])
}

/// The log that a line holds: its first word is the score, its second the
/// layout, the others the tables.
pub open spec fn log_of_text(s: Seq<char>) -> Result<
    (nat, Seq<(char, char)>, Seq<Seq<char>>),
    LogError,
> {
    let ts = text::tokens(s, CharClass::Whitespace);
    if ts.len() == 0 {
        Err(LogError::NoScore)
    } else {
        match text::usize_of(ts[0]) {
            None => Err(LogError::BadScore),
            Some(n) => if ts.len() < 2 {
                Err(LogError::NoKeyToChar)
            } else {
                Ok((n, layout_of_text(ts[1]), ts.skip(2)))
            },
        }
    }
}

fn join_strings(ws: &Vec<String>, sep: char) -> (r: Vec<char>)
    ensures
        r@ == out::join(text::strs(ws@), seq![sep]),
{
    let mut parts: Vec<Vec<char>> = Vec::new();
    let mut i: usize = 0;
    while i < ws.len()
        invariant
            i <= ws.len(),
            parts.deep_view() == text::strs(ws@).take(i as int),
        decreases ws.len() - i,
    {
        let w = chars_of(ws[i].as_str());
        let ghost d = parts.deep_view();
        proof {
            text::lemma_chars_deep_view(&w);
        }
        parts.push(w);
        assert(parts.deep_view() =~= d.push(ws@[i as int]@));
        i = i + 1;
        assert(text::strs(ws@).take(i as int) =~= d.push(ws@[i - 1]@));
    }
    assert(text::strs(ws@).take(ws.len() as int) =~= text::strs(ws@));
    let mut s: Vec<char> = Vec::new();
    s.push(sep);
    assert(s@ =~= seq![sep]);
    join_chars(&parts, &s)
}

impl Log {
    /// The log as a line.
    pub fn to_string(&self) -> (s: String)
        ensures
            s@ == log_text(self.score as nat, self.keytochar@, text::strs(self.yongpaths@)),
    {
        let y = join_strings(&self.yongpaths, ' ');
        let k = keytocjchar_tostring(&self.keytochar);
        let mut r = decimal_chars(self.score as u64);
        r.push(' ');
        text::push_all(&mut r, &chars_of(k.as_str()));
        r.push(' ');
        text::push_all(&mut r, &y);
        string_of(&r)
    }

    /// Reads a log from a line.
    pub fn try_from(value: &str) -> (r: Result<Log, LogError>)
        ensures
            match r {
                Ok(l) => log_of_text(value@) == Ok::<_, LogError>(log_view(l)),
                Err(e) => log_of_text(value@) == Err::<(nat, Seq<(char, char)>, Seq<Seq<char>>), _>(e),
            },
    {
        let ts = split_tokens(&chars_of(value), &CharClass::Whitespace);
        let ghost tv = ts.deep_view();
        if ts.len() == 0 {
            return Err(LogError::NoScore);
        }
        proof {
            text::lemma_chars_deep_view(&ts@[0]);
            assert(tv[0] == ts@[0].deep_view());
        }
        let score = match parse_usize(&ts[0]) {
            Some(n) => n,
            None => {
                return Err(LogError::BadScore);
            },
        };
        if ts.len() < 2 {
            return Err(LogError::NoKeyToChar);
        }
        proof {
            text::lemma_chars_deep_view(&ts@[1]);
            assert(tv[1] == ts@[1].deep_view());
        }
        let kc = string_of(&ts[1]);
        let keytochar = string_to_keytocjchar(kc.as_str());
        let mut yongpaths: Vec<String> = Vec::new();
        let mut i: usize = 2;
        while i < ts.len()
            invariant
                2 <= i <= ts.len(),
                tv == ts.deep_view(),
                text::strs(yongpaths@) == tv.subrange(2, i as int),
            decreases ts.len() - i,
        {
            proof {
                text::lemma_chars_deep_view(&ts@[i as int]);
                assert(tv[i as int] == ts@[i as int].deep_view());
            }
            let ghost y0 = text::strs(yongpaths@);
            yongpaths.push(string_of(&ts[i]));
            assert(text::strs(yongpaths@) =~= y0.push(tv[i as int]));
            i = i + 1;
            assert(text::strs(yongpaths@) =~= tv.subrange(2, i as int));
        }
        assert(tv.subrange(2, ts.len() as int) =~= tv.skip(2));
        Ok(Log { score, keytochar, yongpaths })
    }
}

/// Calls `permutation_iterator::Permutor::new(max)` and collects what it yields.
/// The crate documents the iterator as a random permutation of `0..max`; stated
/// is that the result holds each number below `max` exactly once. Which order
/// comes out rests on a random key and is not stated.
///
/// `max` stays below 2^32: the crate sizes its Feistel domain from
/// `(max as f64).log2().ceil()`, which for large `max` (from about 2^52 on) can
/// round to a domain smaller than `max`, and the iterator then never ends; it
/// also steps a `u64` counter through the whole domain. Below 2^32 the float
/// is exact, the domain covers `0..max` and the counter cannot overflow.
#[verifier::external_body]
pub(crate) fn random_permutation(max: u64) -> (r: Vec<u64>)
    requires
        max <= 0xffff_ffff,
    ensures
        r.len() == max,
        forall|i: int| 0 <= i < r.len() ==> #[trigger] r[i] < max,
        forall|i: int, j: int| 0 <= i < j < r.len() ==> #[trigger] r[i] != #[trigger] r[j],
{
    Permutor::new(max).collect()
}

/// `p` orders the numbers below `n`: each exactly once.
pub open spec fn is_order(p: Seq<u64>, n: nat) -> bool {
    &&& p.len() == n
    &&& forall|i: int| 0 <= i < p.len() ==> #[trigger] p[i] < n
    &&& forall|i: int, j: int| 0 <= i < j < p.len() ==> #[trigger] p[i] != #[trigger] p[j]
}

/// Each key paired with the variable that the order puts at its place.
pub open spec fn assigned(keys: Seq<char>, vars: Seq<char>, p: Seq<u64>) -> Seq<(char, char)> {
    Seq::new(keys.len(), |i: int| (keys[i], vars[p[i] as int]))
}

/// The layout that pairs each key with the variable the order puts at its place.
pub fn assign_by(keys: &Vec<char>, vars: &Vec<char>, order: &Vec<u64>) -> (r: CharMap)
    requires
        keys.len() == order.len(),
        forall|i: int| 0 <= i < order.len() ==> #[trigger] order[i] < vars.len(),
    ensures
        r@ == cmap::cput_all(assigned(keys@, vars@, order@)),
{
    let mut pairs: Vec<(char, char)> = Vec::new();
    let mut i: usize = 0;
    while i < keys.len()
        invariant
            i <= keys.len(),
            keys.len() == order.len(),
            forall|q: int| 0 <= q < order.len() ==> #[trigger] order[q] < vars.len(),
            pairs@ == assigned(keys@, vars@, order@).take(i as int),
        decreases keys.len() - i,
    {
        let v = vars[order[i] as usize];
        pairs.push((keys[i], v));
        i = i + 1;
        assert(pairs@ =~= assigned(keys@, vars@, order@).take(i as int));
    }
    assert(assigned(keys@, vars@, order@).take(keys.len() as int) =~= assigned(
        keys@,
        vars@,
        order@,
    ));
    cmap_from(&pairs)
}

/// `m` pairs the keys one to one with the variables in some order.
pub open spec fn is_assignment(keys: Seq<char>, vars: Seq<char>, m: Seq<(char, char)>) -> bool {
    exists|p: Seq<u64>| is_order(p, vars.len() as nat) && m == cmap::cput_all(assigned(keys, vars, p))
}

/// A random layout: the keys paired one to one with the variables in a random order.
pub fn permloop(keys: &Vec<char>, vars: &Vec<char>) -> (r: CharMap)
    requires
        keys.len() == vars.len(),
        vars.len() <= 0xffff_ffff,
    ensures
        is_assignment(keys@, vars@, r@),
{
    let order = random_permutation(vars.len() as u64);
    let r = assign_by(keys, vars, &order);
    assert(is_order(order@, vars.len() as nat));
    r
}

/// `n` random layouts, each pairing the keys one to one with the variables.
pub fn random_candidates(keys: &Vec<char>, vars: &Vec<char>, n: usize) -> (r: Vec<CharMap>)
    requires
        keys.len() == vars.len(),
        vars.len() <= 0xffff_ffff,
    ensures
        r.len() == n,
        forall|i: int| 0 <= i < n ==> is_assignment(keys@, vars@, (#[trigger] r@[i])@),
{
    let mut r: Vec<CharMap> = Vec::new();
    let mut i: usize = 0;
    while i < n
        invariant
            i <= n,
            r.len() == i,
            keys.len() == vars.len(),
            vars.len() <= 0xffff_ffff,
            forall|q: int| 0 <= q < i ==> is_assignment(keys@, vars@, (#[trigger] r@[q])@),
        decreases n - i,
    {
        let m = permloop(keys, vars);
        r.push(m);
        i = i + 1;
    }
    r
}

/// The layout of a candidate: the fixed pairs, then the candidate's pairs.
pub open spec fn candidate_layout(pre: Seq<(char, char)>, cand: Seq<(char, char)>) -> Seq<
    (char, char),
> {
    cmap::cput_all(pre + cand)
}

/// The penalty of a candidate layout.
pub open spec fn candidate_score(
    stats: Seq<(Seq<char>, usize)>,
    pre: Seq<(char, char)>,
    cand: Seq<(char, char)>,
) -> nat {
    penalty(stats, cmap::cput_all(cmap::flipped(candidate_layout(pre, cand))))
}

/// Index of the first smallest number.
pub open spec fn first_min(s: Seq<nat>) -> int
    decreases s.len(),
{
    if s.len() <= 1 {
        0
    } else {
        let i = first_min(s.drop_last());
        if s.last() < s[i] {
            s.len() - 1
        } else {
            i
        }
    }
}

/// The first smallest number is no larger than any, and smaller than those before it.
pub proof fn lemma_first_min(s: Seq<nat>)
    requires
        s.len() > 0,
    ensures
        0 <= first_min(s) < s.len(),
        forall|j: int| 0 <= j < s.len() ==> s[first_min(s)] <= #[trigger] s[j],
        forall|j: int| 0 <= j < first_min(s) ==> s[first_min(s)] < #[trigger] s[j],
    decreases s.len(),
{
    if s.len() > 1 {
        lemma_first_min(s.drop_last());
        let i = first_min(s.drop_last());
        assert forall|j: int| 0 <= j < s.len() - 1 implies #[trigger] s[j] == s.drop_last()[j] by {}
    }
}

pub open spec fn candidate_scores(
    stats: Seq<(Seq<char>, usize)>,
    pre: Seq<(char, char)>,
    cands: Seq<Seq<(char, char)>>,
) -> Seq<nat> {
    cands.map_values(|c: Seq<(char, char)>| candidate_score(stats, pre, c))
}

pub open spec fn cands_view(cands: Seq<CharMap>) -> Seq<Seq<(char, char)>> {
    cands.map_values(|c: CharMap| c@)
}

/// The first candidate layout of smallest penalty, with its penalty; `None`
/// when there is no candidate.
pub fn best_candidate(
    stats: &Vec<(String, usize)>,
    predefined: &CharMap,
    candidates: &Vec<CharMap>,
) -> (r: Option<(usize, CharMap)>)
    requires
        forall|i: int|
            0 <= i < candidates.len() ==> candidate_score(
                dict::vview(stats@),
                predefined@,
                #[trigger] candidates@[i]@,
            ) <= usize::MAX,
    ensures
        match r {
            None => candidates.len() == 0,
            Some((score, layout)) => {
                let scores = candidate_scores(dict::vview(stats@), predefined@, cands_view(candidates@));
                let i = first_min(scores);
                &&& candidates.len() > 0
                &&& score == scores[i]
                &&& layout@ == candidate_layout(predefined@, candidates@[i]@)
            },
        },
{
    let ghost scores = candidate_scores(dict::vview(stats@), predefined@, cands_view(candidates@));
    let mut best: Option<(usize, CharMap)> = None;
    let mut i: usize = 0;
    while i < candidates.len()
        invariant
            i <= candidates.len(),
            scores == candidate_scores(dict::vview(stats@), predefined@, cands_view(candidates@)),
            forall|q: int|
                0 <= q < candidates.len() ==> candidate_score(
                    dict::vview(stats@),
                    predefined@,
                    #[trigger] candidates@[q]@,
                ) <= usize::MAX,
            match best {
                None => i == 0,
                Some((score, layout)) => {
                    let k = first_min(scores.take(i as int));
                    &&& i > 0
                    &&& score == scores[k]
                    &&& layout@ == candidate_layout(predefined@, candidates@[k]@)
                },
            },
        decreases candidates.len() - i,
    {
        let mut all: Vec<(char, char)> = Vec::new();
        text_pairs_extend(&mut all, predefined);
        text_pairs_extend(&mut all, &candidates[i]);
        let layout = cmap_from(&all);
        let chartokey = cmap_from(&flip_pairs(&layout));
        assert(all@ =~= predefined@ + candidates@[i as int]@);
        let score = eval(stats, &chartokey);
        let ghost t = scores.take(i + 1);
        proof {
            assert(t.drop_last() =~= scores.take(i as int));
            assert(t.last() == score);
            assert(scores[i as int] == score);
        }
        match &best {
            None => {
                assert(t.len() == 1);
                best = Some((score, layout));
            },
            Some((s, _)) => {
                proof {
                    lemma_first_min(scores.take(i as int));
                }
                if score < *s {
                    best = Some((score, layout));
                }
            },
        }
        i = i + 1;
    }
    assert(scores.take(candidates.len() as int) =~= scores);
    proof {
        if candidates.len() > 0 {
            lemma_first_min(scores);
        }
    }
    best
}

fn text_pairs_extend(a: &mut Vec<(char, char)>, b: &Vec<(char, char)>)
    ensures
        final(a)@ == old(a)@ + b@,
{
    let mut i: usize = 0;
    while i < b.len()
        invariant
            i <= b.len(),
            a@ == old(a)@ + b@.take(i as int),
        decreases b.len() - i,
    {
        a.push(b[i]);
        i = i + 1;
        assert(a@ =~= old(a)@ + b@.take(i as int));
    }
    assert(b@.take(b.len() as int) =~= b@);
}


/// A character that can stand in the one-line text of a layout.
pub open spec fn layout_char_ok(c: char) -> bool {
    !text::is_ws(c) && c != '_'
}

pub open spec fn layout_chars_ok(m: Seq<(char, char)>) -> bool {
    forall|i: int| 0 <= i < m.len() ==> layout_char_ok(#[trigger] m[i].0) && layout_char_ok(m[i].1)
}

proof fn lemma_two_letter_pairs(s: Seq<(char, char)>)
    ensures
        two_letter_pairs(s.map_values(|p: (char, char)| pair_word(p))) == s,
    decreases s.len(),
{
    if s.len() > 0 {
        let w = s.map_values(|p: (char, char)| pair_word(p));
        lemma_two_letter_pairs(s.drop_last());
        assert(w.drop_last() =~= s.drop_last().map_values(|p: (char, char)| pair_word(p)));
        assert(w.last() == pair_word(s.last()));
        assert(s.drop_last() + seq![(s.last().0, s.last().1)] =~= s);
    }
}

proof fn lemma_cput_all_unique(s: Seq<(char, char)>)
    requires
        cmap::cunique(s),
    ensures
        cmap::cput_all(s) == s,
    decreases s.len(),
{
    if s.len() > 0 {
        let a = s.drop_last();
        assert(cmap::cunique(a)) by {
            assert forall|i: int, j: int| 0 <= i < j < a.len() implies #[trigger] a[i].0
                != #[trigger] a[j].0 by {
                assert(a[i] == s[i] && a[j] == s[j]);
            }
        }
        lemma_cput_all_unique(a);
        assert forall|j: int| 0 <= j < a.len() implies #[trigger] a[j].0 != s.last().0 by {
            assert(a[j] == s[j]);
        }
        cmap::lemma_cpos_none(a, s.last().0);
        assert(a.push(s.last()) =~= s);
    }
}

proof fn lemma_unique_count(s: Seq<(char, char)>, x: (char, char))
    requires
        cmap::cunique(s),
    ensures
        s.to_multiset().count(x) <= 1,
    decreases s.len(),
{
    broadcast use vstd::multiset::group_multiset_axioms, vstd::seq_lib::group_to_multiset_ensures;

    if s.len() > 0 {
        let a = s.drop_last();
        assert(cmap::cunique(a)) by {
            assert forall|i: int, j: int| 0 <= i < j < a.len() implies #[trigger] a[i].0
                != #[trigger] a[j].0 by {
                assert(a[i] == s[i] && a[j] == s[j]);
            }
        }
        lemma_unique_count(a, x);
        assert(a.push(s.last()) =~= s);
        if x == s.last() {
            if a.contains(x) {
                let i = choose|i: int| 0 <= i < a.len() && a[i] == x;
                assert(s[i].0 == s[s.len() - 1].0);
            }
            assert(a.to_multiset().count(x) == 0);
        }
    }
}

proof fn lemma_cget_contains(s: Seq<(char, char)>, k: char, v: char)
    requires
        cmap::cunique(s),
    ensures
        cmap::cget(s, k) == Some(v) <==> s.contains((k, v)),
{
    cmap::lemma_cpos(s, k);
    if s.contains((k, v)) {
        let i = choose|i: int| 0 <= i < s.len() && s[i] == (k, v);
        cmap::lemma_cget_unique(s, i);
    }
    if cmap::cget(s, k) == Some(v) {
        let i = cmap::cpos(s, k)->0;
        assert(s[i] == (k, v));
    }
}

/// Two arrangements of the same pairs, one with each key once, are the same map.
proof fn lemma_same_pairs(a: Seq<(char, char)>, b: Seq<(char, char)>)
    requires
        cmap::cunique(a),
        a.to_multiset() == b.to_multiset(),
    ensures
        cmap::cunique(b),
        cmap::cmap_of(a) == cmap::cmap_of(b),
{
    broadcast use vstd::multiset::group_multiset_axioms, vstd::seq_lib::group_to_multiset_ensures;

    assert forall|i: int, j: int| 0 <= i < j < b.len() implies #[trigger] b[i].0
        != #[trigger] b[j].0 by {
        if b[i].0 == b[j].0 {
            assert(b.contains(b[i]));
            assert(b.contains(b[j]));
            assert(b.to_multiset().count(b[i]) > 0);
            assert(b.to_multiset().count(b[j]) > 0);
            assert(a.to_multiset().count(b[i]) > 0);
            assert(a.to_multiset().count(b[j]) > 0);
            assert(a.contains(b[i]));
            assert(a.contains(b[j]));
            let p = choose|p: int| 0 <= p < a.len() && a[p] == b[i];
            let q = choose|q: int| 0 <= q < a.len() && a[q] == b[j];
            if p != q {
                if p < q {
                    assert(a[p].0 != a[q].0);
                } else {
                    assert(a[q].0 != a[p].0);
                }
            }
            assert(p == q);
            let x = b[i];
            assert(b[j] == x);
            assert(b.remove(j).to_multiset() == b.to_multiset().remove(b[j]));
            assert(b.remove(j)[i] == x);
            assert(b.remove(j).contains(x));
            assert(b.remove(j).to_multiset().count(x) > 0);
            assert(b.to_multiset().count(x) >= 2);
            assert(a.to_multiset().count(x) >= 2);
            lemma_unique_count(a, x);
            assert(false);
        }
    }
    assert forall|k: char| #[trigger] cmap::cget(a, k) == cmap::cget(b, k) by {
        cmap::lemma_cpos(a, k);
        cmap::lemma_cpos(b, k);
        match cmap::cget(a, k) {
            Some(v) => {
                lemma_cget_contains(a, k, v);
                lemma_cget_contains(b, k, v);
                assert(a.to_multiset().count((k, v)) > 0);
                assert(b.to_multiset().count((k, v)) > 0);
                assert(b.contains((k, v)));
            },
            None => {
                match cmap::cget(b, k) {
                    Some(w) => {
                        lemma_cget_contains(b, k, w);
                        lemma_cget_contains(a, k, w);
                        assert(b.to_multiset().count((k, w)) > 0);
                        assert(a.to_multiset().count((k, w)) > 0);
                        assert(a.contains((k, w)));
                    },
                    None => {},
                }
            },
        }
    }
    assert(cmap::cmap_of(a) =~= cmap::cmap_of(b));
}

proof fn lemma_join_len(ws: Seq<Seq<char>>, sep: Seq<char>)
    requires
        ws.len() > 0,
    ensures
        out::join(ws, sep).len() >= ws.last().len(),
{
}

/// Reading the one-line text of a layout gives back the layout: the same
/// map, each key once.
pub proof fn lemma_layout_roundtrip(m: Seq<(char, char)>)
    requires
        cmap::cunique(m),
        layout_chars_ok(m),
    ensures
        cmap::cunique(layout_of_text(layout_text(m))),
        cmap::cmap_of(layout_of_text(layout_text(m))) == cmap::cmap_of(m),
{
    broadcast use vstd::multiset::group_multiset_axioms, vstd::seq_lib::group_to_multiset_ensures;

    let srt = sort_pairs(m);
    lemma_sort_pairs(m);
    lemma_same_pairs(m, srt);
    let words = srt.map_values(|p: (char, char)| pair_word(p));
    let l = out::join(words, seq!['_']);
    assert(l == layout_text(m));
    assert forall|i: int| 0 <= i < srt.len() implies layout_char_ok(#[trigger] srt[i].0)
        && layout_char_ok(srt[i].1) by {
        assert(srt.contains(srt[i]));
        assert(srt.to_multiset().count(srt[i]) > 0);
        assert(m.to_multiset().count(srt[i]) > 0);
        assert(m.contains(srt[i]));
        let q = choose|q: int| 0 <= q < m.len() && m[q] == srt[i];
        assert(layout_char_ok(m[q].0) && layout_char_ok(m[q].1));
    }
    let ok = |c: char| layout_char_ok(c) || c == '_';
    assert forall|i: int, j: int| 0 <= i < words.len() && 0 <= j < words[i].len() implies ok(
        #[trigger] words[i][j],
    ) by {
        assert(words[i] == pair_word(srt[i]));
    }
    out::lemma_join_chars(words, seq!['_'], ok);
    assert(!text::is_ws('_'));
    text::lemma_no_leading_ws(l);
    if l.len() > 0 {
        assert(ok(l[l.len() - 1]));
        assert(kt::trailing_ws(l) == 0);
    }
    assert(l.take(l.len() as int) =~= l);
    assert(kt::trim(l) == l);
    lemma_two_letter_pairs(srt);
    if words.len() > 0 {
        assert forall|i: int| 0 <= i < words.len() implies !(#[trigger] words[i]).contains('_') by {
            assert(words[i] == pair_word(srt[i]));
            if words[i].contains('_') {
                let j = choose|j: int| 0 <= j < words[i].len() && words[i][j] == '_';
                assert(words[i][j] == srt[i].0 || words[i][j] == srt[i].1);
            }
        }
        out::lemma_pieces_join(words, '_');
    } else {
        assert(l =~= Seq::<char>::empty());
        assert(text::piece_state(l, '_') == (Seq::<Seq<char>>::empty(), Seq::<char>::empty()));
        let ps = text::pieces(l, '_');
        assert(ps =~= seq![Seq::<char>::empty()]);
        assert(ps.drop_last() =~= Seq::<Seq<char>>::empty());
        assert(two_letter_pairs(ps.drop_last()) =~= Seq::<(char, char)>::empty());
        assert(ps.last().len() == 0);
        assert(two_letter_pairs(ps) =~= Seq::<(char, char)>::empty());
        assert(srt =~= Seq::<(char, char)>::empty());
    }
    lemma_cput_all_unique(srt);
}

/// Reading a log back from its line gives the log: its score, its layout (the
/// same map) and its tables.
pub proof fn lemma_log_roundtrip(score: nat, m: Seq<(char, char)>, paths: Seq<Seq<char>>)
    requires
        score <= usize::MAX,
        m.len() > 0,
        cmap::cunique(m),
        layout_chars_ok(m),
        forall|i: int| 0 <= i < paths.len() ==> (#[trigger] paths[i]).len() > 0,
        forall|i: int, j: int| 0 <= i < paths.len() && 0 <= j < paths[i].len() ==> !text::is_ws(
            #[trigger] paths[i][j],
        ),
    ensures
        match log_of_text(log_text(score, m, paths)) {
            Ok((s2, m2, p2)) => s2 == score && cmap::cmap_of(m2) == cmap::cmap_of(m) && p2 == paths,
            Err(_) => false,
        },
{
    broadcast use vstd::multiset::group_multiset_axioms, vstd::seq_lib::group_to_multiset_ensures;

    let d = text::decimal(score);
    text::lemma_usize_of_decimal(score);
    assert forall|j: int| 0 <= j < d.len() implies !text::class_has(
        CharClass::Whitespace,
        #[trigger] d[j],
    ) by {
        assert(text::is_ascii_digit(d[j]));
    }
    text::lemma_tokens_word(d, CharClass::Whitespace);
    let srt = sort_pairs(m);
    lemma_sort_pairs(m);
    let words = srt.map_values(|p: (char, char)| pair_word(p));
    let l = layout_text(m);
    assert(srt.to_multiset().len() == m.to_multiset().len());
    assert(srt.len() == m.len());
    lemma_join_len(words, seq!['_']);
    assert(words.last() == pair_word(srt[srt.len() - 1]));
    assert forall|i: int| 0 <= i < srt.len() implies layout_char_ok(#[trigger] srt[i].0)
        && layout_char_ok(srt[i].1) by {
        assert(srt.contains(srt[i]));
        assert(srt.to_multiset().count(srt[i]) > 0);
        assert(m.to_multiset().count(srt[i]) > 0);
        assert(m.contains(srt[i]));
        let q = choose|q: int| 0 <= q < m.len() && m[q] == srt[i];
        assert(layout_char_ok(m[q].0) && layout_char_ok(m[q].1));
    }
    let nw = |c: char| !text::is_ws(c);
    assert forall|i: int, j: int| 0 <= i < words.len() && 0 <= j < words[i].len() implies nw(
        #[trigger] words[i][j],
    ) by {
        assert(words[i] == pair_word(srt[i]));
    }
    out::lemma_join_chars(words, seq!['_'], nw);
    assert forall|j: int| 0 <= j < l.len() implies !text::class_has(
        CharClass::Whitespace,
        #[trigger] l[j],
    ) by {
        assert(nw(l[j]));
    }
    text::lemma_tokens_word(l, CharClass::Whitespace);
    let jp = out::join(paths, seq![' ']);
    out::lemma_tokens_join(paths);
    text::lemma_tokens_sep(d, ' ', l, CharClass::Whitespace);
    text::lemma_tokens_sep(d + seq![' '] + l, ' ', jp, CharClass::Whitespace);
    let ts = text::tokens(log_text(score, m, paths), CharClass::Whitespace);
    assert(ts == seq![d] + seq![l] + paths);
    assert(ts[0] == d);
    assert(ts[1] == l);
    assert(ts.skip(2) =~= paths);
    lemma_layout_roundtrip(m);
}


/// One round of the layout search: the best candidate layout, scored over the
/// dictionary by its chain-breaking make-word spells, as a log with the
/// tables, and the scored words. `None` when there is no candidate or the
/// dictionary cannot be scored under the best one.
pub fn leveled_round(
    stats: &Vec<(String, usize)>,
    predefined: &CharMap,
    candidates: &Vec<CharMap>,
    yongdict: &YongDictWordSpells,
    shuangpin: &ShuangPinTables,
    fluents: &Vec<String>,
    yongpaths: &Vec<String>,
) -> (r: Option<(Log, Vec<(String, WithMakeWordSpecifier)>)>)
    requires
        forall|i: int|
            0 <= i < candidates.len() ==> candidate_score(
                dict::vview(stats@),
                predefined@,
                #[trigger] candidates@[i]@,
            ) <= usize::MAX,
    ensures
        ({
            let scores = candidate_scores(dict::vview(stats@), predefined@, cands_view(candidates@));
            let layout = candidate_layout(predefined@, candidates@[first_min(scores)]@);
            let sd = dict::put_all(swap_entries(layout));
            let fls = text::strs(fluents@);
            match r {
                Some((log, w)) => {
                    &&& candidates.len() > 0
                    &&& repeat::scoring_ready(yongdict@, sd, *shuangpin, fls)
                    &&& log.keytochar@ == layout
                    &&& log.score == repeat::unchained_total(
                        out::specify_all(yongdict@, sd, *shuangpin, fls),
                    )
                    &&& text::strs(log.yongpaths@) == text::strs(yongpaths@)
                    &&& out::wms_view(w@) == out::specify_all(yongdict@, sd, *shuangpin, fls)
                },
                None => candidates.len() == 0 || !repeat::scoring_ready(
                    yongdict@,
                    sd,
                    *shuangpin,
                    fls,
                ),
            }
        }),
{
    match best_candidate(stats, predefined, candidates) {
        None => None,
        Some((_, keytochar)) => {
            let swap_dict = charchar_to_swap_dict(&keytochar);
            match score_swap_dict(&swap_dict, yongdict, shuangpin, fluents) {
                None => None,
                Some((score, w)) => {
                    let paths = yongpaths.clone();
                    assert(text::strs(paths@) =~= text::strs(yongpaths@));
                    Some((Log { score, keytochar, yongpaths: paths }, w))
                },
            }
        },
    }
}

/// Index of the first round with the lowest score, where there is a round.
pub fn lowest_score_index<W>(rounds: &Vec<(Log, W)>) -> (r: Option<usize>)
    ensures
        match r {
            None => rounds.len() == 0,
            Some(i) => rounds.len() > 0 && i == first_min(
                rounds@.map_values(|x: (Log, W)| x.0.score as nat),
            ),
        },
{
    let ghost sc = rounds@.map_values(|x: (Log, W)| x.0.score as nat);
    if rounds.len() == 0 {
        return None;
    }
    let mut best: usize = 0;
    let mut i: usize = 1;
    while i < rounds.len()
        invariant
            1 <= i <= rounds.len(),
            sc == rounds@.map_values(|x: (Log, W)| x.0.score as nat),
            best == first_min(sc.take(i as int)),
            best < i,
        decreases rounds.len() - i,
    {
        proof {
            assert(sc.take(i + 1).drop_last() =~= sc.take(i as int));
            assert(sc.take(i as int)[best as int] == sc[best as int]);
        }
        if rounds[i].0.score < rounds[best].0.score {
            best = i;
        }
        i = i + 1;
    }
    assert(sc.take(rounds.len() as int) =~= sc);
    Some(best)
}

/// Where a log's layout is written: its tables sorted and joined by `_`,
/// then `-keytochar:` and the layout's one-line text.
pub open spec fn log_save_path_of(paths: Seq<Seq<char>>, m: Seq<(char, char)>) -> Seq<char> {
    out::join(util::sort_texts(paths), seq!['_']) + "-keytochar:"@ + layout_text(m)
}

/// The file name for the layout of a log.
pub fn log_save_path(log: &Log) -> (s: String)
    ensures
        s@ == log_save_path_of(text::strs(log.yongpaths@), log.keytochar@),
{
    let paths = util::sort_strings(&log.yongpaths);
    let mut r = join_strings(&paths, '_');
    text::push_all(&mut r, &chars_of("-keytochar:"));
    text::push_all(&mut r, &chars_of(keytocjchar_tostring(&log.keytochar).as_str()));
    string_of(&r)
}

/// The text of scored words under an extra head: the head, a line feed, and
/// the spell table of the words; `None` when a spell is too long to be ordered.
pub fn extra_scored_text(extra: &str, dict: Vec<(String, WithMakeWordSpecifier)>) -> (r: Option<
    String,
>)
    ensures
        match r {
            Some(s) => repeat::record_fits(out::wms_view(dict@)) && s@ == extra@ + seq!['\n']
                + out::table_text(out::sort_by_spell(out::flip_specified(out::wms_view(dict@)))),
            None => !repeat::record_fits(out::wms_view(dict@)),
        },
{
    let ghost jv = out::wms_view(dict@);
    let spellwords = specifier_to_wordspells(dict);
    if !out::spells_fit_check(&spellwords) {
        proof {
            let k = choose|k: int|
                0 <= k < spellwords@.len() && !((#[trigger] spellwords@[k]).0@.len() <= i32::MAX);
            assert(out::sws_view(spellwords@)[k].0 == spellwords@[k].0@);
            assert(out::flip_specified(jv)[k].0.len() > i32::MAX);
        }
        return None;
    }
    proof {
        assert forall|k: int| 0 <= k < out::flip_specified(jv).len() implies (
        #[trigger] out::flip_specified(jv)[k]).0.len() <= i32::MAX by {
            assert(out::sws_view(spellwords@)[k].0 == spellwords@[k].0@);
        }
    }
    let table = out::spell_words_dict_tostring(spellwords);
    let mut r = chars_of(extra);
    r.push('\n');
    text::push_all(&mut r, &chars_of(table.as_str()));
    Some(string_of(&r))
}


/// The pairs that the lines of a layout file hold: a line of exactly two
/// words pairs the first characters of the two.
pub open spec fn layout_file_pairs(ls: Seq<Seq<char>>) -> Seq<(char, char)>
    decreases ls.len(),
{
    if ls.len() == 0 {
        seq![]
    } else {
        let ws = text::tokens(ls.last(), CharClass::Whitespace);
        layout_file_pairs(ls.drop_last()) + if ws.len() == 2 {
            seq![(ws[0][0], ws[1][0])]
        } else {
            Seq::<(char, char)>::empty()
        }
    }
}

/// Reads a layout from the text of its file; a later pair of a key replaces an
/// earlier one.
pub fn keytocjchar_of_text(content: &str) -> (r: CharMap)
    ensures
        r@ == cmap::cput_all(layout_file_pairs(text::lines(content@))),
        cmap::cunique(r@),
{
    let ls = lines_of(content);
    let ghost lv = text::strs(ls@);
    let mut pairs: Vec<(char, char)> = Vec::new();
    let mut i: usize = 0;
    while i < ls.len()
        invariant
            i <= ls.len(),
            lv == text::strs(ls@),
            pairs@ == layout_file_pairs(lv.take(i as int)),
        decreases ls.len() - i,
    {
        proof {
            assert(lv.take(i + 1).drop_last() =~= lv.take(i as int));
        }
        let ws = split_tokens(&chars_of(ls[i].as_str()), &CharClass::Whitespace);
        let ghost wv = ws.deep_view();
        if ws.len() == 2 {
            proof {
                text::lemma_chars_deep_view(&ws@[0]);
                text::lemma_chars_deep_view(&ws@[1]);
                assert(wv[0] == ws@[0].deep_view());
                assert(wv[1] == ws@[1].deep_view());
                lemma_tokens_nonempty(lv[i as int], CharClass::Whitespace);
            }
            pairs.push((ws[0][0], ws[1][0]));
        }
        i = i + 1;
        assert(pairs@ =~= layout_file_pairs(lv.take(i as int)));
    }
    assert(lv.take(ls.len() as int) =~= lv);
    cmap_from(&pairs)
}

proof fn lemma_tokens_nonempty(s: Seq<char>, k: CharClass)
    ensures
        forall|i: int|
            0 <= i < text::tokens(s, k).len() ==> (#[trigger] text::tokens(s, k)[i]).len() > 0,
{
    lemma_token_state_nonempty(s, k);
    let (d, c) = text::token_state(s, k);
    let r = text::tokens(s, k);
    assert forall|i: int| 0 <= i < r.len() implies (#[trigger] r[i]).len() > 0 by {
        if i < d.len() {
            assert(r[i] == d[i]);
        }
    }
}

proof fn lemma_token_state_nonempty(s: Seq<char>, k: CharClass)
    ensures
        forall|i: int|
            0 <= i < text::token_state(s, k).0.len() ==> (#[trigger] text::token_state(
                s,
                k,
            ).0[i]).len() > 0,
    decreases s.len(),
{
    if s.len() > 0 {
        lemma_token_state_nonempty(s.drop_last(), k);
        let (d, c) = text::token_state(s.drop_last(), k);
        let r = text::token_state(s, k).0;
        assert forall|i: int| 0 <= i < r.len() implies (#[trigger] r[i]).len() > 0 by {
            if i < d.len() {
                assert(r[i] == d[i]);
            }
        }
    }
}

/// No key or value of the pairs is whitespace.
pub open spec fn pairs_plain(m: Seq<(char, char)>) -> bool {
    forall|i: int| 0 <= i < m.len() ==> !text::is_ws(#[trigger] m[i].0) && !text::is_ws(m[i].1)
}

/// Reading the file text of a layout gives the layout back.
pub proof fn lemma_layout_file_roundtrip(m: Seq<(char, char)>)
    requires
        cmap::cunique(m),
        pairs_plain(m),
    ensures
        cmap::cput_all(layout_file_pairs(text::lines(layout_file_text(m)))) == m,
{
    let ls = m.map_values(|p: (char, char)| seq![p.0, ' ', p.1]);
    if m.len() == 0 {
        let x = layout_file_text(m);
        assert(ls =~= Seq::<Seq<char>>::empty());
        assert(x =~= seq!['\n']);
        assert(x.drop_last() =~= Seq::<char>::empty());
        assert(text::piece_state(x.drop_last(), '\n') == (
            Seq::<Seq<char>>::empty(),
            Seq::<char>::empty(),
        ));
        let l = text::lines(x);
        assert(text::piece_state(x, '\n').0 =~= seq![Seq::<char>::empty()]);
        assert(l =~= seq![Seq::<char>::empty()]);
        assert(text::token_state(Seq::<char>::empty(), CharClass::Whitespace).1.len() == 0);
        assert(text::tokens(Seq::<char>::empty(), CharClass::Whitespace).len() == 0);
        assert(l.drop_last() =~= Seq::<Seq<char>>::empty());
        assert(layout_file_pairs(l.drop_last()) =~= Seq::<(char, char)>::empty());
        assert(l.last() =~= Seq::<char>::empty());
        assert(layout_file_pairs(l) =~= Seq::<(char, char)>::empty());
    } else {
        assert forall|i: int| 0 <= i < ls.len() implies !(#[trigger] ls[i]).contains('\n')
            && text::strip_cr(ls[i]) == ls[i] by {
            assert(ls[i] == seq![m[i].0, ' ', m[i].1]);
            assert(!text::is_ws(m[i].0) && !text::is_ws(m[i].1));
            if ls[i].contains('\n') {
                let k = choose|k: int| 0 <= k < ls[i].len() && ls[i][k] == '\n';
                assert(k == 0 || k == 1 || k == 2);
            }
        }
        out::lemma_lines_join(ls);
        lemma_layout_file_pairs_of(m);
        lemma_cput_all_unique(m);
    }
}

proof fn lemma_layout_file_pairs_of(m: Seq<(char, char)>)
    requires
        pairs_plain(m),
    ensures
        layout_file_pairs(m.map_values(|p: (char, char)| seq![p.0, ' ', p.1])) == m,
    decreases m.len(),
{
    if m.len() > 0 {
        let ls = m.map_values(|p: (char, char)| seq![p.0, ' ', p.1]);
        let a = m.drop_last();
        assert forall|i: int| 0 <= i < a.len() implies !text::is_ws(#[trigger] a[i].0) && !text::is_ws(
            a[i].1,
        ) by {
            assert(a[i] == m[i]);
        }
        assert(pairs_plain(a));
        lemma_layout_file_pairs_of(a);
        assert(ls.drop_last() =~= a.map_values(|p: (char, char)| seq![p.0, ' ', p.1]));
        let p = m.last();
        assert(!text::is_ws(m[m.len() - 1].0) && !text::is_ws(m[m.len() - 1].1));
        text::lemma_tokens_word(seq![p.0], CharClass::Whitespace);
        text::lemma_tokens_word(seq![p.1], CharClass::Whitespace);
        text::lemma_tokens_sep(seq![p.0], ' ', seq![p.1], CharClass::Whitespace);
        assert(ls.last() == seq![p.0] + seq![' '] + seq![p.1]);
        assert(a + seq![(p.0, p.1)] =~= m);
    }
}

/// The keys that a search places (those that no fixed pair takes as key) and
/// the Cangjie keys it places (those that no fixed pair takes as value).
pub fn free_keys_and_vars(allchars: &Vec<char>, predefined: &CharMap) -> (r: (Vec<char>, Vec<char>))
    ensures
        r.0@ == crate::swap::keep_out(allchars@, crate::swap::keys_of(predefined@), Seq::<char>::empty()),
        r.1@ == crate::swap::keep_out(
            allchars@,
            crate::swap::values_of(predefined@),
            Seq::<char>::empty(),
        ),
{
    let none: Vec<char> = Vec::new();
    let ks = crate::swap::keys_exec(predefined, false);
    let vs = crate::swap::keys_exec(predefined, true);
    let keys = crate::swap::keep_out_exec(allchars, &ks, &none);
    let vars = crate::swap::keep_out_exec(allchars, &vs, &none);
    assert(none@ =~= Seq::<char>::empty());
    (keys, vars)
}

} // verus!
