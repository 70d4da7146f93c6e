//! Output tables: the spelling translators that derive the spells of a word,
//! the flip from word spells to spell words, and the text of a spell table.
use crate::dict::{self, find_key, group_insert};
use crate::kt::{self, SwapKeyDict, YongDictWordSpells, swap_key, swap_spell};
use crate::py::{self, ShuangPinTables, py_keys};
use crate::spell::{self, BihuaXxyx, SpecifySpelling, YongSpelling};
use crate::text::{
    self,
    CharClass,
    chars_of,
    concat,
    push_all,
    push_seq,
    push_seqs,
    split_at_byte,
    string_of,
    strings_of,
};
use crate::yubi::{self, is_left_key};
use crate::util::{self, cmp_by_len_default};
use core::cmp::Ordering;
use vstd::prelude::*;

verus! {

/// `ws` joined with `sep` between neighbours.
pub open spec fn join(ws: Seq<Seq<char>>, sep: Seq<char>) -> Seq<char>
    decreases ws.len(),
{
    if ws.len() == 0 {
        seq![]
    } else if ws.len() == 1 {
        ws[0]
    } else {
        join(ws.drop_last(), sep) + sep + ws.last()
    }
}

/// Every character of a join comes from a piece or from the separator.
pub proof fn lemma_join_chars(ws: Seq<Seq<char>>, sep: Seq<char>, p: spec_fn(char) -> bool)
    requires
        forall|i: int, j: int| 0 <= i < ws.len() && 0 <= j < ws[i].len() ==> p(#[trigger] ws[i][j]),
        forall|j: int| 0 <= j < sep.len() ==> p(#[trigger] sep[j]),
    ensures
        forall|j: int| 0 <= j < join(ws, sep).len() ==> p(#[trigger] join(ws, sep)[j]),
    decreases ws.len(),
{
    if ws.len() >= 2 {
        let a = ws.drop_last();
        assert forall|i: int, j: int| 0 <= i < a.len() && 0 <= j < a[i].len() implies p(
            #[trigger] a[i][j],
        ) by {
            assert(a[i] == ws[i]);
        }
        lemma_join_chars(a, sep, p);
        let x = join(a, sep);
        let l = ws.last();
        assert forall|j: int| 0 <= j < join(ws, sep).len() implies p(#[trigger] join(ws, sep)[j]) by {
            if j < x.len() {
                assert(join(ws, sep)[j] == x[j]);
            } else if j < x.len() + sep.len() {
                assert(join(ws, sep)[j] == sep[j - x.len()]);
            } else {
                assert(join(ws, sep)[j] == l[j - x.len() - sep.len()]);
                assert(l == ws[ws.len() - 1]);
            }
        }
    } else if ws.len() == 1 {
        assert forall|j: int| 0 <= j < join(ws, sep).len() implies p(#[trigger] join(ws, sep)[j]) by {
            assert(join(ws, sep)[j] == ws[0][j]);
        }
    }
}

/// Splitting a join by its one-character separator gives the pieces back.
pub proof fn lemma_pieces_join(ws: Seq<Seq<char>>, c: char)
    requires
        ws.len() > 0,
        forall|i: int| 0 <= i < ws.len() ==> !(#[trigger] ws[i]).contains(c),
    ensures
        text::pieces(join(ws, seq![c]), c) == ws,
    decreases ws.len(),
{
    if ws.len() == 1 {
        text::lemma_pieces_word(ws[0], c);
        assert(seq![ws[0]] =~= ws);
    } else {
        lemma_pieces_join(ws.drop_last(), c);
        assert(!ws.last().contains(c)) by {
            assert(ws.last() == ws[ws.len() - 1]);
        }
        text::lemma_pieces_sep(join(ws.drop_last(), seq![c]), c, ws.last());
        assert(ws.drop_last().push(ws.last()) =~= ws);
    }
}

proof fn lemma_piece_state_join(ws: Seq<Seq<char>>, c: char)
    requires
        ws.len() > 0,
        forall|i: int| 0 <= i < ws.len() ==> !(#[trigger] ws[i]).contains(c),
    ensures
        text::piece_state(join(ws, seq![c]), c) == (ws.drop_last(), ws.last()),
    decreases ws.len(),
{
    if ws.len() == 1 {
        text::lemma_piece_state_append(Seq::<char>::empty(), ws[0], c);
        assert(Seq::<char>::empty() + ws[0] =~= ws[0]);
        assert(text::piece_state(Seq::<char>::empty(), c).1 + ws[0] =~= ws[0]);
        assert(ws.drop_last() =~= Seq::<Seq<char>>::empty());
    } else {
        let a = ws.drop_last();
        assert forall|i: int| 0 <= i < a.len() implies !(#[trigger] a[i]).contains(c) by {
            assert(a[i] == ws[i]);
        }
        lemma_piece_state_join(a, c);
        let x = join(a, seq![c]) + seq![c];
        assert(x.drop_last() =~= join(a, seq![c]));
        assert(a.drop_last().push(a.last()) =~= a);
        assert(!ws.last().contains(c)) by {
            assert(ws.last() == ws[ws.len() - 1]);
        }
        text::lemma_piece_state_append(x, ws.last(), c);
        assert(text::piece_state(x, c).1 + ws.last() =~= ws.last());
    }
}

/// The lines of a text made of lines, each ended by a line feed, are those
/// lines, when none holds a line feed or ends with a carriage return.
pub proof fn lemma_lines_join(ls: Seq<Seq<char>>)
    requires
        ls.len() > 0,
        forall|i: int| 0 <= i < ls.len() ==> !(#[trigger] ls[i]).contains('\n'),
        forall|i: int| 0 <= i < ls.len() ==> text::strip_cr(#[trigger] ls[i]) == ls[i],
    ensures
        text::lines(join(ls, seq!['\n']) + seq!['\n']) == ls,
{
    lemma_piece_state_join(ls, '\n');
    let x = join(ls, seq!['\n']) + seq!['\n'];
    assert(x.drop_last() =~= join(ls, seq!['\n']));
    assert(ls.drop_last().push(ls.last()) =~= ls);
    let st = text::piece_state(x, '\n');
    assert(st.0 == ls);
    assert(st.1.len() == 0);
    assert(st.0.map_values(|l: Seq<char>| text::strip_cr(l)) =~= ls);
    assert(text::lines(x) =~= ls);
}

/// The words of a join by spaces are the joined words, when these are
/// non-empty and free of whitespace.
pub proof fn lemma_tokens_join(ws: Seq<Seq<char>>)
    requires
        forall|i: int| 0 <= i < ws.len() ==> (#[trigger] ws[i]).len() > 0,
        forall|i: int, j: int| 0 <= i < ws.len() && 0 <= j < ws[i].len() ==> !text::is_ws(
            #[trigger] ws[i][j],
        ),
    ensures
        text::tokens(join(ws, seq![' ']), CharClass::Whitespace) == ws,
    decreases ws.len(),
{
    if ws.len() == 0 {
        assert(text::token_state(Seq::<char>::empty(), CharClass::Whitespace).1.len() == 0);
        assert(text::tokens(Seq::<char>::empty(), CharClass::Whitespace) =~= ws);
    } else if ws.len() == 1 {
        assert forall|j: int| 0 <= j < ws[0].len() implies !text::class_has(
            CharClass::Whitespace,
            #[trigger] ws[0][j],
        ) by {}
        text::lemma_tokens_word(ws[0], CharClass::Whitespace);
        assert(seq![ws[0]] =~= ws);
    } else {
        let a = ws.drop_last();
        assert forall|i: int, j: int| 0 <= i < a.len() && 0 <= j < a[i].len() implies !text::is_ws(
            #[trigger] a[i][j],
        ) by {
            assert(a[i] == ws[i]);
        }
        assert forall|i: int| 0 <= i < a.len() implies (#[trigger] a[i]).len() > 0 by {
            assert(a[i] == ws[i]);
        }
        lemma_tokens_join(a);
        let l = ws.last();
        assert(l == ws[ws.len() - 1]);
        assert forall|j: int| 0 <= j < l.len() implies !text::class_has(
            CharClass::Whitespace,
            #[trigger] l[j],
        ) by {
            assert(l[j] == ws[ws.len() - 1][j]);
        }
        text::lemma_tokens_word(l, CharClass::Whitespace);
        text::lemma_tokens_sep(join(a, seq![' ']), ' ', l, CharClass::Whitespace);
        assert(a + seq![l] =~= ws);
    }
}

/// No entry's spell comes after the spell of a later entry.
pub open spec fn spells_sorted(s: Seq<SpellWords>) -> bool {
    forall|i: int, j: int| 0 <= i < j < s.len() ==> !util::len_lex_lt(#[trigger] s[j].0, #[trigger] s[i].0)
}

proof fn lemma_insert_by_spell(s: Seq<SpellWords>, x: SpellWords)
    requires
        spells_sorted(s),
    ensures
        spells_sorted(insert_by_spell(s, x)),
        insert_by_spell(s, x).to_multiset() == s.to_multiset().insert(x),
    decreases s.len(),
{
    broadcast use vstd::multiset::group_multiset_axioms, vstd::seq_lib::group_to_multiset_ensures;

    let r = insert_by_spell(s, x);
    if s.len() == 0 {
        assert(r =~= Seq::<SpellWords>::empty().push(x));
    } else {
        let l = s.last();
        let a = s.drop_last();
        assert(a.push(l) =~= s);
        if util::len_lex_lt(x.0, l.0) {
            assert forall|i: int, j: int| 0 <= i < j < a.len() implies !util::len_lex_lt(
                #[trigger] a[j].0,
                #[trigger] a[i].0,
            ) by {
                assert(a[i] == s[i] && a[j] == s[j]);
            }
            lemma_insert_by_spell(a, x);
            let ia = insert_by_spell(a, x);
            assert forall|k: int| 0 <= k < ia.len() implies !util::len_lex_lt(
                l.0,
                (#[trigger] ia[k]).0,
            ) by {
                assert(ia.to_multiset().count(ia[k]) > 0);
                if ia[k] == x {
                    util::lemma_len_lex_order(x.0, l.0, x.0);
                } else {
                    assert(a.to_multiset().count(ia[k]) > 0);
                    assert(a.contains(ia[k]));
                    let q = choose|q: int| 0 <= q < a.len() && a[q] == ia[k];
                    assert(s[q] == a[q] && s[s.len() - 1] == l);
                }
            }
            assert forall|i: int, j: int| 0 <= i < j < r.len() implies !util::len_lex_lt(
                #[trigger] r[j].0,
                #[trigger] r[i].0,
            ) by {
                if j == r.len() - 1 {
                    assert(r[j] == l && r[i] == ia[i]);
                } else {
                    assert(r[i] == ia[i] && r[j] == ia[j]);
                }
            }
        } else {
            assert forall|i: int, j: int| 0 <= i < j < r.len() implies !util::len_lex_lt(
                #[trigger] r[j].0,
                #[trigger] r[i].0,
            ) by {
                if j == r.len() - 1 {
                    assert(r[j] == x && r[i] == s[i]);
                    if util::len_lex_lt(x.0, s[i].0) {
                        if i < s.len() - 1 {
                            assert(!util::len_lex_lt(s[s.len() - 1].0, s[i].0));
                            util::lemma_len_lex_order(s[i].0, l.0, x.0);
                            util::lemma_len_lex_order(x.0, s[i].0, l.0);
                        }
                    }
                } else {
                    assert(r[i] == s[i] && r[j] == s[j]);
                }
            }
        }
    }
}

/// The spell table comes out in order of spells (by length, then
/// lexicographically) and holds the same entries.
pub proof fn lemma_sort_by_spell(s: Seq<SpellWords>)
    ensures
        spells_sorted(sort_by_spell(s)),
        sort_by_spell(s).to_multiset() == s.to_multiset(),
    decreases s.len(),
{
    broadcast use vstd::multiset::group_multiset_axioms, vstd::seq_lib::group_to_multiset_ensures;

    if s.len() > 0 {
        lemma_sort_by_spell(s.drop_last());
        lemma_insert_by_spell(sort_by_spell(s.drop_last()), s.last());
        assert(s.drop_last().push(s.last()) =~= s);
    }
}

/// Whether every spell of the table fits the ordering of spells.
pub fn spells_fit_check(d: &Vec<(String, Vec<String>)>) -> (r: bool)
    ensures
        r == spells_fit(d@),
{
    let mut i: usize = 0;
    while i < d.len()
        invariant
            i <= d.len(),
            forall|q: int| 0 <= q < i ==> (#[trigger] d@[q]).0@.len() <= i32::MAX,
        decreases d.len() - i,
    {
        if chars_of(d[i].0.as_str()).len() > 0x7fff_ffff {
            return false;
        }
        i = i + 1;
    }
    true
}

/// The pieces joined, with `sep` between each two.
pub fn join_chars(ws: &Vec<Vec<char>>, sep: &Vec<char>) -> (r: Vec<char>)
    ensures
        r@ == join(ws.deep_view(), sep@),
{
    let mut r: Vec<char> = Vec::new();
    let mut i: usize = 0;
    while i < ws.len()
        invariant
            i <= ws.len(),
            r@ == join(ws.deep_view().take(i as int), sep@),
        decreases ws.len() - i,
    {
        proof {
            text::lemma_chars_deep_view(&ws@[i as int]);
            assert(ws.deep_view().take(i + 1).drop_last() =~= ws.deep_view().take(i as int));
            assert(ws.deep_view()[i as int] == ws@[i as int].deep_view());
        }
        if i > 0 {
            push_all(&mut r, sep);
        }
        push_all(&mut r, &ws[i]);
        i = i + 1;
        proof {
            if i == 1 {
                assert(ws.deep_view().take(0) =~= Seq::<Seq<char>>::empty());
            }
        }
    }
    assert(ws.deep_view().take(ws.len() as int) =~= ws.deep_view());
    r
}

/// The line of a spell table: the spell, a space, the words separated by
/// spaces, `$SPACE` after the only word of an empty spell, and a line feed.
pub open spec fn entry_line(spell: Seq<char>, words: Seq<Seq<char>>) -> Seq<char> {
    spell + seq![' '] + join(words, seq![' ']) + (if spell.len() < 1 && words.len() == 1 {
        "$SPACE"@
    } else {
        Seq::<char>::empty()
    }) + seq!['\n']
}

pub struct SpellWordsEntry {
    pub spell: String,
    pub words: Vec<String>,
}

fn join_words(ws: &Vec<String>) -> (r: Vec<char>)
    ensures
        r@ == join(text::strs(ws@), seq![' ']),
{
    let mut r: Vec<char> = Vec::new();
    let mut i: usize = 0;
    while i < ws.len()
        invariant
            i <= ws.len(),
            r@ == join(text::strs(ws@).take(i as int), seq![' ']),
        decreases ws.len() - i,
    {
        proof {
            assert(text::strs(ws@).take(i + 1).drop_last() =~= text::strs(ws@).take(i as int));
        }
        if i > 0 {
            r.push(' ');
        }
        push_all(&mut r, &chars_of(ws[i].as_str()));
        i = i + 1;
        proof {
            if i == 1 {
                assert(r@ =~= join(text::strs(ws@).take(i as int), seq![' ']));
            } else {
                assert(r@ =~= join(text::strs(ws@).take(i as int), seq![' ']));
            }
        }
    }
    assert(text::strs(ws@).take(ws.len() as int) =~= text::strs(ws@));
    r
}

impl SpellWordsEntry {
    pub fn from_tuple(t: (&String, &Vec<String>)) -> (r: Self)
        ensures
            r.spell@ == t.0@,
            text::strs(r.words@) == text::strs(t.1@),
    {
        let words = t.1.clone();
        assert(text::strs(words@) =~= text::strs(t.1@));
        SpellWordsEntry { spell: t.0.clone(), words }
    }

    pub fn to_tuple(&self) -> (r: (String, Vec<String>))
        ensures
            r.0@ == self.spell@,
            text::strs(r.1@) == text::strs(self.words@),
    {
        let words = self.words.clone();
        assert(text::strs(words@) =~= text::strs(self.words@));
        (self.spell.clone(), words)
    }

    /// The line of the entry in a spell table.
    pub fn to_string(&self) -> (s: String)
        ensures
            s@ == entry_line(self.spell@, text::strs(self.words@)),
    {
        let mut v = chars_of(self.spell.as_str());
        let empty_spell = v.len() < 1;
        v.push(' ');
        push_all(&mut v, &join_words(&self.words));
        if empty_spell && self.words.len() == 1 {
            push_all(&mut v, &chars_of("$SPACE"));
        }
        v.push('\n');
        let ghost sp = self.spell@;
        assert(v@ =~= entry_line(sp, text::strs(self.words@)));
        string_of(&v)
    }
}

pub type SpellWords = (Seq<char>, Seq<Seq<char>>);

pub open spec fn sw_view(e: (String, Vec<String>)) -> SpellWords {
    (e.0@, text::strs(e.1@))
}

pub open spec fn sws_view(v: Seq<(String, Vec<String>)>) -> Seq<SpellWords> {
    v.map_values(|e: (String, Vec<String>)| sw_view(e))
}

/// Inserts `x` after the last entry whose spell does not come after its spell.
pub open spec fn insert_by_spell(s: Seq<SpellWords>, x: SpellWords) -> Seq<SpellWords>
    decreases s.len(),
{
    if s.len() == 0 {
        seq![x]
    } else if util::len_lex_lt(x.0, s.last().0) {
        insert_by_spell(s.drop_last(), x).push(s.last())
    } else {
        s.push(x)
    }
}

/// The entries in the order of their spells (shorter first, then
/// lexicographically); entries with equal spells keep their order.
pub open spec fn sort_by_spell(s: Seq<SpellWords>) -> Seq<SpellWords>
    decreases s.len(),
{
    if s.len() == 0 {
        seq![]
    } else {
        insert_by_spell(sort_by_spell(s.drop_last()), s.last())
    }
}

pub open spec fn table_text(s: Seq<SpellWords>) -> Seq<char>
    decreases s.len(),
{
    if s.len() == 0 {
        seq![]
    } else {
        table_text(s.drop_last()) + entry_line(s.last().0, s.last().1)
    }
}

pub open spec fn spells_fit(s: Seq<(String, Vec<String>)>) -> bool {
    forall|i: int| 0 <= i < s.len() ==> (#[trigger] s[i]).0@.len() <= i32::MAX
}

proof fn lemma_insert_at(s: Seq<SpellWords>, x: SpellWords, j: int)
    requires
        0 <= j <= s.len(),
        forall|k: int| j <= k < s.len() ==> util::len_lex_lt(x.0, #[trigger] s[k].0),
        j == 0 || !util::len_lex_lt(x.0, s[j - 1].0),
    ensures
        insert_by_spell(s, x) == s.take(j).push(x) + s.skip(j),
    decreases s.len(),
{
    if s.len() == j {
        assert(s.skip(j) =~= Seq::<SpellWords>::empty());
        if j == 0 {
            assert(s.take(0).push(x) =~= seq![x]);
        } else {
            assert(s.take(j) =~= s);
        }
        assert(s.take(j).push(x) + s.skip(j) =~= s.take(j).push(x));
    } else {
        let t = s.drop_last();
        assert forall|k: int| j <= k < t.len() implies util::len_lex_lt(x.0, #[trigger] t[k].0) by {
            assert(t[k] == s[k]);
        }
        if j > 0 {
            assert(t[j - 1] == s[j - 1]);
        }
        lemma_insert_at(t, x, j);
        assert(t.take(j) =~= s.take(j));
        assert(t.skip(j).push(s.last()) =~= s.skip(j));
        assert((t.take(j).push(x) + t.skip(j)).push(s.last()) =~= s.take(j).push(x) + s.skip(j));
    }
}

proof fn lemma_lex_irrefl(a: Seq<char>)
    ensures
        !util::lex_lt(a, a),
    decreases a.len(),
{
    if a.len() > 0 {
        lemma_lex_irrefl(a.skip(1));
    }
}

/// `a` comes before `b` in the order of spells.
fn spell_before(a: &String, b: &String) -> (r: bool)
    requires
        a@.len() <= i32::MAX,
        b@.len() <= i32::MAX,
    ensures
        r == util::len_lex_lt(a@, b@),
{
    proof {
        lemma_lex_irrefl(a@);
    }
    match cmp_by_len_default(a, b) {
        Ordering::Less => true,
        _ => false,
    }
}

/// Sorts the entries by their spells, keeping entries of equal spells in order.
fn sort_entries(dict: Vec<(String, Vec<String>)>) -> (r: Vec<(String, Vec<String>)>)
    requires
        spells_fit(dict@),
    ensures
        sws_view(r@) == sort_by_spell(sws_view(dict@)),
{
    let mut r: Vec<(String, Vec<String>)> = Vec::new();
    let mut i: usize = 0;
    let n = dict.len();
    let mut rest = dict;
    let ghost d0 = sws_view(dict@);
    while i < n
        invariant
            i <= n,
            n == dict@.len(),
            rest@.len() == n - i,
            d0 == sws_view(dict@),
            spells_fit(dict@),
            rest@ == dict@.skip(i as int),
            spells_fit(r@),
            sws_view(r@) == sort_by_spell(d0.take(i as int)),
        decreases n - i,
    {
        let e = rest.remove(0);
        assert(e == dict@[i as int]);
        assert(sw_view(e) == d0[i as int]);
        let mut j = r.len();
        while j > 0 && spell_before(&e.0, &r[j - 1].0)
            invariant
                j <= r.len(),
                spells_fit(r@),
                e.0@.len() <= i32::MAX,
                forall|k: int|
                    j <= k < r@.len() ==> util::len_lex_lt(e.0@, #[trigger] sws_view(r@)[k].0),
            decreases j,
        {
            j = j - 1;
        }
        proof {
            assert(rest@ =~= dict@.skip(i + 1));
            lemma_insert_at(sws_view(r@), sw_view(e), j as int);
            assert(d0.take(i + 1).drop_last() =~= d0.take(i as int));
        }
        let ghost before = sws_view(r@);
        let ghost rv = r@;
        r.insert(j, e);
        proof {
            assert(sws_view(r@) =~= before.take(j as int).push(sw_view(e)) + before.skip(j as int));
            assert forall|k: int| 0 <= k < r@.len() implies (#[trigger] r@[k]).0@.len()
                <= i32::MAX by {
                if k > j {
                    assert(r@[k] == rv[k - 1]);
                }
            }
        }
        i = i + 1;
    }
    assert(d0.take(n as int) =~= d0);
    r
}

/// The text of a spell table: its entries sorted by spell, one line each.
pub fn spell_words_dict_tostring(dict: Vec<(String, Vec<String>)>) -> (s: String)
    requires
        spells_fit(dict@),
    ensures
        s@ == table_text(sort_by_spell(sws_view(dict@))),
{
    let v = sort_entries(dict);
    let mut out: Vec<char> = Vec::new();
    let mut i: usize = 0;
    while i < v.len()
        invariant
            i <= v.len(),
            out@ == table_text(sws_view(v@).take(i as int)),
        decreases v.len() - i,
    {
        proof {
            assert(sws_view(v@).take(i + 1).drop_last() =~= sws_view(v@).take(i as int));
        }
        let e = SpellWordsEntry::from_tuple((&v[i].0, &v[i].1));
        push_all(&mut out, &chars_of(e.to_string().as_str()));
        i = i + 1;
    }
    assert(sws_view(v@).take(v.len() as int) =~= sws_view(v@));
    string_of(&out)
}

/// The spells that a word gets: those that make words (specified) and the others.
#[derive(Debug, Clone)]
pub struct WithMakeWordSpecifier {
    pub specified_for_make_word_spells: Vec<String>,
    pub other_spells: Vec<String>,
}

pub type SpecView = (Seq<Seq<char>>, Seq<Seq<char>>);

pub open spec fn wm_view(w: WithMakeWordSpecifier) -> SpecView {
    (text::strs(w.specified_for_make_word_spells@), text::strs(w.other_spells@))
}

pub open spec fn wms_view(j: Seq<(String, WithMakeWordSpecifier)>) -> Seq<(Seq<char>, SpecView)> {
    j.map_values(|e: (String, WithMakeWordSpecifier)| (e.0@, wm_view(e.1)))
}

pub open spec fn with_word(spells: Seq<Seq<char>>, w: Seq<char>) -> Seq<(Seq<char>, Seq<char>)> {
    spells.map_values(|s: Seq<char>| (s, w))
}

/// Each spell of each word (other spells first), paired with the word.
pub open spec fn spell_word_pairs(j: Seq<(Seq<char>, SpecView)>) -> Seq<(Seq<char>, Seq<char>)>
    decreases j.len(),
{
    if j.len() == 0 {
        seq![]
    } else {
        let (w, (sp, ot)) = j.last();
        spell_word_pairs(j.drop_last()) + with_word(ot + sp, w)
    }
}

/// The make-word entries: each specified spell behind `^`, with its word alone.
pub open spec fn caret_entries(j: Seq<(Seq<char>, SpecView)>) -> Seq<SpellWords>
    decreases j.len(),
{
    if j.len() == 0 {
        seq![]
    } else {
        let (w, (sp, ot)) = j.last();
        caret_entries(j.drop_last()) + sp.map_values(|s: Seq<char>| (seq!['^'] + s, seq![w]))
    }
}

/// The spell table of words with their spells: the make-word entries, then each
/// spell with the distinct words that have it, in order of first appearance.
pub open spec fn flip_specified(j: Seq<(Seq<char>, SpecView)>) -> Seq<SpellWords> {
    caret_entries(j) + dict::group_all_new(spell_word_pairs(j))
}

fn joined_spells(w: &WithMakeWordSpecifier) -> (both: Vec<String>)
    ensures
        text::strs(both@) == text::strs(w.other_spells@) + text::strs(w.specified_for_make_word_spells@),
{
    let mut both: Vec<String> = w.other_spells.clone();
    let mut q: usize = 0;
    while q < w.specified_for_make_word_spells.len()
        invariant
            q <= w.specified_for_make_word_spells.len(),
            text::strs(both@) == text::strs(w.other_spells@) + text::strs(
                w.specified_for_make_word_spells@,
            ).take(q as int),
        decreases w.specified_for_make_word_spells.len() - q,
    {
        let ghost b0 = text::strs(both@);
        let x = w.specified_for_make_word_spells[q].clone();
        assert(x@ == text::strs(w.specified_for_make_word_spells@)[q as int]);
        both.push(x);
        assert(text::strs(both@) =~= b0.push(x@));
        q = q + 1;
        assert(text::strs(w.specified_for_make_word_spells@).take(q as int) =~= text::strs(
            w.specified_for_make_word_spells@,
        ).take(q - 1).push(x@));
        assert(text::strs(both@) =~= text::strs(w.other_spells@) + text::strs(
            w.specified_for_make_word_spells@,
        ).take(q as int));
    }
    assert(text::strs(w.specified_for_make_word_spells@).take(
        w.specified_for_make_word_spells.len() as int,
    ) =~= text::strs(w.specified_for_make_word_spells@));
    both
}

fn push_carets(carets: &mut Vec<(String, Vec<String>)>, word: &String, sps: &Vec<String>)
    ensures
        sws_view(final(carets)@) == sws_view(old(carets)@) + text::strs(sps@).map_values(
            |s: Seq<char>| (seq!['^'] + s, seq![word@]),
        ),
{
    let ghost wv = word@;
    let ghost spv = text::strs(sps@);
    let ghost cbase = sws_view(carets@);
    let mut k: usize = 0;
    while k < sps.len()
        invariant
            k <= sps.len(),
            wv == word@,
            spv == text::strs(sps@),
            cbase == sws_view(old(carets)@),
            sws_view(carets@) == cbase + spv.take(k as int).map_values(
                |s: Seq<char>| (seq!['^'] + s, seq![wv]),
            ),
        decreases sps.len() - k,
    {
        let mut sp: Vec<char> = Vec::new();
        sp.push('^');
        push_all(&mut sp, &chars_of(sps[k].as_str()));
        let mut ws: Vec<String> = Vec::new();
        ws.push(word.clone());
        let ghost before = sws_view(carets@);
        carets.push((string_of(&sp), ws));
        k = k + 1;
        proof {
            assert(text::strs(ws@) =~= seq![wv]);
            assert(sws_view(carets@) =~= before.push((seq!['^'] + spv[k - 1], seq![wv])));
            assert(spv.take(k as int).map_values(|s: Seq<char>| (seq!['^'] + s, seq![wv]))
                =~= spv.take(k - 1).map_values(|s: Seq<char>| (seq!['^'] + s, seq![wv])).push(
                (seq!['^'] + spv[k - 1], seq![wv]),
            ));
        }
    }
    assert(spv.take(spv.len() as int) =~= spv);
}

pub fn specifier_to_wordspells(j: Vec<(String, WithMakeWordSpecifier)>) -> (r: Vec<
    (String, Vec<String>),
>)
    ensures
        sws_view(r@) == flip_specified(wms_view(j@)),
{
    let ghost jv = wms_view(j@);
    let mut init: Vec<(String, Vec<String>)> = Vec::new();
    let mut carets: Vec<(String, Vec<String>)> = Vec::new();
    let mut i: usize = 0;
    while i < j.len()
        invariant
            i <= j.len(),
            jv == wms_view(j@),
            dict::gview(init@) == dict::group_all_new(spell_word_pairs(jv.take(i as int))),
            sws_view(carets@) == caret_entries(jv.take(i as int)),
        decreases j.len() - i,
    {
        let word = &j[i].0;
        let w = &j[i].1;
        let ghost (wv, (spv, otv)) = jv[i as int];
        proof {
            assert(jv.take(i + 1).drop_last() =~= jv.take(i as int));
            assert(jv.take(i + 1).last() == jv[i as int]);
        }
        let both = joined_spells(w);
        assert(text::strs(both@) =~= otv + spv);
        let ghost base = spell_word_pairs(jv.take(i as int));
        let mut m: usize = 0;
        while m < both.len()
            invariant
                m <= both.len(),
                wv == word@,
                dict::gview(init@) == dict::group_all_new(
                    base + with_word(text::strs(both@).take(m as int), wv),
                ),
            decreases both.len() - m,
        {
            proof {
                let a = base + with_word(text::strs(both@).take(m + 1), wv);
                assert(a.drop_last() =~= base + with_word(text::strs(both@).take(m as int), wv));
                assert(a.last() == (both@[m as int]@, wv));
            }
            dict::group_insert_new(&mut init, both[m].clone(), word.clone());
            m = m + 1;
        }
        proof {
            assert(text::strs(both@).take(both.len() as int) =~= otv + spv);
            assert(base + with_word(otv + spv, wv) == spell_word_pairs(jv.take(i + 1)));
        }
        push_carets(&mut carets, word, &w.specified_for_make_word_spells);
        assert(spv == text::strs(w.specified_for_make_word_spells@));
        i = i + 1;
    }
    proof {
        assert(jv.take(j.len() as int) =~= jv);
    }
    let ghost cv = sws_view(carets@);
    let ghost iv = sws_view(init@);
    let mut r = carets;
    let mut t: usize = 0;
    while t < init.len()
        invariant
            t <= init.len(),
            sws_view(r@) == cv + iv.take(t as int),
            iv == sws_view(init@),
        decreases init.len() - t,
    {
        let e = (init[t].0.clone(), init[t].1.clone());
        let ghost before = sws_view(r@);
        r.push(e);
        t = t + 1;
        proof {
            assert(text::strs(e.1@) =~= text::strs(init@[t - 1].1@));
            assert(sws_view(r@) =~= before.push(sw_view(init@[t - 1])));
            assert(iv.take(t as int) =~= iv.take(t - 1).push(iv[t - 1]));
        }
    }
    proof {
        assert(iv.take(init.len() as int) =~= iv);
        assert(iv =~= dict::gview(init@));
    }
    r
}

/// The tables that the translators read: the shuangpin table, the fluent key
/// pairs, the swap dictionaries of start keys and of end keys, and the lines
/// of the xxyx chain table.
pub struct SpellTables {
    pub shuangpin: ShuangPinTables,
    pub fluents: Vec<String>,
    pub swap_start: SwapKeyDict,
    pub swap: SwapKeyDict,
    pub xxyx_chain: Vec<String>,
}

/// A word with its spellings.
pub struct WordSpellsEntry {
    pub word: String,
    pub spells: Vec<SpecifySpelling>,
}

pub open spec fn ss_view(v: Seq<SpecifySpelling>) -> Seq<(YongSpelling, Seq<char>)> {
    v.map_values(|s: SpecifySpelling| s@)
}

/// The spells of scheme `k`, in order.
pub open spec fn spells_in(v: Seq<(YongSpelling, Seq<char>)>, k: YongSpelling) -> Seq<Seq<char>>
    decreases v.len(),
{
    if v.len() == 0 {
        seq![]
    } else if v.last().0 == k {
        spells_in(v.drop_last(), k).push(v.last().1)
    } else {
        spells_in(v.drop_last(), k)
    }
}

fn spells_of_kind(v: &Vec<SpecifySpelling>, k: YongSpelling) -> (r: Vec<Vec<char>>)
    ensures
        r.deep_view() == spells_in(ss_view(v@), k),
{
    let mut r: Vec<Vec<char>> = Vec::new();
    let mut i: usize = 0;
    while i < v.len()
        invariant
            i <= v.len(),
            r.deep_view() == spells_in(ss_view(v@).take(i as int), k),
        decreases v.len() - i,
    {
        proof {
            assert(ss_view(v@).take(i + 1).drop_last() =~= ss_view(v@).take(i as int));
        }
        if v[i].spelling == k {
            push_seq(&mut r, chars_of(v[i].spell.as_str()));
        }
        i = i + 1;
    }
    assert(ss_view(v@).take(v.len() as int) =~= ss_view(v@));
    r
}

/// The key pair `a b` starts one of the fluent entries.
pub open spec fn fluent_listed(a: char, b: char, fls: Seq<Seq<char>>) -> bool {
    exists|i: int|
        0 <= i < fls.len() && (#[trigger] fls[i]).len() >= 2 && fls[i][0] == a && fls[i][1] == b
}

fn is_fluent_listed(a: char, b: char, fls: &Vec<String>) -> (r: bool)
    ensures
        r == fluent_listed(a, b, text::strs(fls@)),
{
    let mut i: usize = 0;
    while i < fls.len()
        invariant
            i <= fls.len(),
            forall|j: int|
                0 <= j < i ==> !((#[trigger] text::strs(fls@)[j]).len() >= 2 && text::strs(
                    fls@,
                )[j][0] == a && text::strs(fls@)[j][1] == b),
        decreases fls.len() - i,
    {
        let f = chars_of(fls[i].as_str());
        if f.len() >= 2 && f[0] == a && f[1] == b {
            assert(text::strs(fls@)[i as int] == f@);
            return true;
        }
        i = i + 1;
    }
    false
}

/// The mark after the first three keys: `+` when the second and third key are
/// typed by different hands or are listed as fluent, else `,` or `.` by the hand
/// of the third key.
pub open spec fn chain_mark(second: char, third: char, fluent: bool) -> Seq<char> {
    if yubi::left_key(second) != yubi::left_key(third) || fluent {
        seq!['+']
    } else if yubi::left_key(third) {
        seq![',']
    } else {
        seq!['.']
    }
}

/// The swapped spelling is not empty, and when it has three keys its first three
/// bytes end between characters.
pub open spec fn cj_splittable(spe: Seq<char>) -> bool {
    spe.len() > 0 && (spe.len() >= 3 ==> text::is_byte_boundary(spe, 3))
}

pub open spec fn cjs_splittable(cjs: Seq<Seq<char>>, d: Seq<(Seq<char>, Seq<char>)>) -> bool {
    forall|i: int| 0 <= i < cjs.len() ==> cj_splittable(kt::swapped_spell(d, #[trigger] cjs[i]))
}

/// Whether a word with these spellings is ready for the main Cangjie scheme
/// under the swap dictionary.
pub fn cjmain_ready_check(word: &String, spells: &Vec<SpecifySpelling>, swap_dict: &SwapKeyDict) -> (r:
    bool)
    ensures
        r == cjmain_ready(
            word@,
            spells_in(ss_view(spells@), YongSpelling::Cangjie),
            kt::sd_view(swap_dict@),
        ),
{
    let w = chars_of(word.as_str());
    if w.len() == 0 {
        return false;
    }
    let cjs = spells_of_kind(spells, YongSpelling::Cangjie);
    let ghost d = kt::sd_view(swap_dict@);
    let mut i: usize = 0;
    while i < cjs.len()
        invariant
            i <= cjs.len(),
            d == kt::sd_view(swap_dict@),
            cjs.deep_view() == spells_in(ss_view(spells@), YongSpelling::Cangjie),
            forall|q: int|
                0 <= q < i ==> cj_splittable(kt::swapped_spell(d, #[trigger] cjs.deep_view()[q])),
        decreases cjs.len() - i,
    {
        proof {
            text::lemma_chars_deep_view(&cjs@[i as int]);
            assert(cjs.deep_view()[i as int] == cjs@[i as int].deep_view());
        }
        let spe = swap_spell(&cjs[i], swap_dict);
        assert(spe@ == kt::swapped_spell(d, cjs.deep_view()[i as int]));
        if spe.len() == 0 {
            assert(!cj_splittable(kt::swapped_spell(d, cjs.deep_view()[i as int])));
            return false;
        }
        if spe.len() >= 3 {
            if text::char_count_at_byte(&spe, 3).is_none() {
                assert(!cj_splittable(kt::swapped_spell(d, cjs.deep_view()[i as int])));
                return false;
            }
        }
        i = i + 1;
    }
    true
}

/// What one Cangjie spelling `sp` (swapped to `spe`) gives a word that has `n`
/// Cangjie spellings and shuangpin keys `py`: the make-word spells and the others.
pub open spec fn cj_with_specifier(
    sp: Seq<char>,
    spe: Seq<char>,
    n: nat,
    py: Seq<char>,
    fls: Seq<Seq<char>>,
) -> SpecView {
    let ok = sp.len() > 0 && (sp[0] != 'x' || n == 1 || text::byte_len(sp) == 1);
    let (specified, other) = if spe.len() >= 3 {
        let k = text::chars_in_bytes(spe, 3);
        let spell = spe.take(k);
        let rem = spe.skip(k);
        let head = spell + chain_mark(spe[1], spe[2], fluent_listed(spe[1], spe[2], fls));
        (
            if ok {
                seq![head + rem + py]
            } else {
                seq![]
            },
            if rem.len() > 0 {
                seq![head + rem, spell + seq!['a'] + py]
            } else {
                seq![spe, head]
            },
        )
    } else {
        (
            if ok {
                seq![spe + seq!['a'] + py]
            } else {
                seq![]
            },
            seq![spe],
        )
    };
    (specified, other.push(seq!['a', 'h'] + py + seq!['.', '.', '.'] + spe))
}

/// The spells that the Cangjie spellings `cjs` give, joined in order.
pub open spec fn cjmain_specified(
    cjs: Seq<Seq<char>>,
    d: Seq<(Seq<char>, Seq<char>)>,
    n: nat,
    py: Seq<char>,
    fls: Seq<Seq<char>>,
) -> SpecView
    decreases cjs.len(),
{
    if cjs.len() == 0 {
        (seq![], seq![])
    } else {
        let prev = cjmain_specified(cjs.drop_last(), d, n, py, fls);
        let part = cj_with_specifier(cjs.last(), kt::swapped_spell(d, cjs.last()), n, py, fls);
        (prev.0 + part.0, prev.1 + part.1)
    }
}

fn one_byte(s: &Vec<char>) -> (r: bool)
    ensures
        r == (text::byte_len(s@) == 1),
{
    proof {
        text::lemma_byte_len_one(s@);
    }
    s.len() == 1 && (s[0] as u32) < 0x80
}

fn lit(s: &str) -> (r: Vec<char>)
    ensures
        r@ == s@,
{
    chars_of(s)
}

fn cj_part_with_specifier(
    sp: &Vec<char>,
    spe: &Vec<char>,
    n: usize,
    py: &Vec<char>,
    fls: &Vec<String>,
) -> (r: (Vec<Vec<char>>, Vec<Vec<char>>))
    requires
        cj_splittable(spe@),
    ensures
        (r.0.deep_view(), r.1.deep_view()) == cj_with_specifier(
            sp@,
            spe@,
            n as nat,
            py@,
            text::strs(fls@),
        ),
{
    let ok = sp.len() > 0 && (sp[0] != 'x' || n == 1 || one_byte(sp));
    let mut specified: Vec<Vec<char>> = Vec::new();
    let mut other: Vec<Vec<char>> = Vec::new();
    let mut a: Vec<char> = Vec::new();
    a.push('a');
    if spe.len() >= 3 {
        let (spell, rem) = split_at_byte(spe, 3);
        let second = spe[1];
        let third = spe[2];
        let fl = is_left_key(second) != is_left_key(third) || is_fluent_listed(second, third, fls);
        let mut head = spell.clone();
        if fl {
            head.push('+');
        } else if is_left_key(third) {
            head.push(',');
        } else {
            head.push('.');
        }
        assert(head@ == spell@ + chain_mark(
            second,
            third,
            fluent_listed(second, third, text::strs(fls@)),
        ));
        let head_rem = concat(&head, &rem);
        if ok {
            push_seq(&mut specified, concat(&head_rem, py));
        }
        if rem.len() > 0 {
            push_seq(&mut other, head_rem);
            push_seq(&mut other, concat(&concat(&spell, &a), py));
        } else {
            push_seq(&mut other, spe.clone());
            push_seq(&mut other, head);
        }
    } else {
        if ok {
            push_seq(&mut specified, concat(&concat(spe, &a), py));
        }
        push_seq(&mut other, spe.clone());
    }
    let mut tail = lit("ah");
    push_all(&mut tail, py);
    push_all(&mut tail, &lit("..."));
    push_all(&mut tail, spe);
    proof {
        reveal_strlit("ah");
        reveal_strlit("...");
    }
    assert(tail@ =~= seq!['a', 'h'] + py@ + seq!['.', '.', '.'] + spe@);
    push_seq(&mut other, tail);
    assert(specified.deep_view() =~= cj_with_specifier(
        sp@,
        spe@,
        n as nat,
        py@,
        text::strs(fls@),
    ).0);
    assert(other.deep_view() =~= cj_with_specifier(
        sp@,
        spe@,
        n as nat,
        py@,
        text::strs(fls@),
    ).1);
    (specified, other)
}

/// A copy of the spellings.
pub fn copy_spellings(v: &Vec<SpecifySpelling>) -> (r: Vec<SpecifySpelling>)
    ensures
        ss_view(r@) == ss_view(v@),
{
    let mut r: Vec<SpecifySpelling> = Vec::new();
    let mut i: usize = 0;
    while i < v.len()
        invariant
            i <= v.len(),
            ss_view(r@) == ss_view(v@).take(i as int),
        decreases v.len() - i,
    {
        let ghost before = ss_view(r@);
        let x = SpecifySpelling { spelling: v[i].spelling, spell: v[i].spell.clone() };
        r.push(x);
        assert(x@ == v@[i as int]@);
        assert(ss_view(r@) =~= before.push(x@));
        i = i + 1;
        assert(ss_view(v@).take(i as int) =~= ss_view(v@).take(i - 1).push(v@[i - 1]@));
    }
    assert(ss_view(v@).take(v.len() as int) =~= ss_view(v@));
    r
}

pub open spec fn entry_cjs(e: WordSpellsEntry) -> Seq<Seq<char>> {
    spells_in(ss_view(e.spells@), YongSpelling::Cangjie)
}

pub open spec fn entry_xxyxs(e: WordSpellsEntry) -> Seq<Seq<char>> {
    spells_in(ss_view(e.spells@), YongSpelling::Xxyx)
}

/// What `to_cjmain_with_specifier` needs of a word: a first character, and
/// swapped Cangjie spellings that can be cut after their third byte.
pub open spec fn cjmain_ready(word: Seq<char>, cjs: Seq<Seq<char>>, d: Seq<(Seq<char>, Seq<char>)>) -> bool {
    word.len() > 0 && cjs_splittable(cjs, d)
}

/// The spells of a word under the main Cangjie scheme, split into the spells
/// that make words and the others.
pub open spec fn cjmain_specifier_of(
    word: Seq<char>,
    cjs: Seq<Seq<char>>,
    d: Seq<(Seq<char>, Seq<char>)>,
    sp: ShuangPinTables,
    fls: Seq<Seq<char>>,
) -> SpecView {
    cjmain_specified(cjs, d, cjs.len(), py::py_keys_or(word[0], sp, "vva"@), fls)
}

/// What one Cangjie spelling (swapped to `spe`) gives a word with shuangpin
/// keys `py` under the main Cangjie scheme.
pub open spec fn cj_main_part(spe: Seq<char>, py: Seq<char>, fls: Seq<Seq<char>>) -> Seq<Seq<char>> {
    let (wordsrc, shorts) = cj_main_src(spe, fls);
    wordsrc.map_values(|w: Seq<char>| w + py) + shorts.push(
        seq!['a', 'p', 'y'] + py + seq!['.', '.', '.'] + spe,
    )
}

/// The word-making sources and the short spells of a swapped Cangjie spelling.
pub open spec fn cj_main_src(spe: Seq<char>, fls: Seq<Seq<char>>) -> (Seq<Seq<char>>, Seq<Seq<char>>) {
    if spe.len() >= 3 {
        let k = text::chars_in_bytes(spe, 3);
        let spell = spe.take(k);
        let rem = spe.skip(k);
        let head = spell + chain_mark(
            spe[1],
            spe[2],
            fluent_listed(spe[1], spe[2], fls) || fluent_listed(spe[2], spe[1], fls),
        );
        (
            if rem.len() > 0 {
                seq![head + rem, spell + seq!['a']]
            } else {
                seq![head]
            },
            if rem.len() > 0 {
                seq![head + rem]
            } else {
                seq![spe]
            },
        )
    } else {
        (seq![spe + seq!['a']], seq![spe])
    }
}

pub open spec fn cjmain_all(
    cjs: Seq<Seq<char>>,
    d: Seq<(Seq<char>, Seq<char>)>,
    py: Seq<char>,
    fls: Seq<Seq<char>>,
) -> Seq<Seq<char>>
    decreases cjs.len(),
{
    if cjs.len() == 0 {
        seq![]
    } else {
        cjmain_all(cjs.drop_last(), d, py, fls) + cj_main_part(
            kt::swapped_spell(d, cjs.last()),
            py,
            fls,
        )
    }
}

/// The word-making sources and the short spells of one swapped Cangjie spelling.
pub struct SpellsForMakeWord {
    shorts: Vec<Vec<char>>,
    wordsrc: Vec<Vec<char>>,
}

fn cj_main_src_exec(spe: &Vec<char>, fls: &Vec<String>) -> (r: SpellsForMakeWord)
    requires
        cj_splittable(spe@),
    ensures
        r.wordsrc.deep_view() == cj_main_src(spe@, text::strs(fls@)).0,
        r.shorts.deep_view() == cj_main_src(spe@, text::strs(fls@)).1,
{
    let mut wordsrc: Vec<Vec<char>> = Vec::new();
    let mut shorts: Vec<Vec<char>> = Vec::new();
    let mut a: Vec<char> = Vec::new();
    a.push('a');
    if spe.len() >= 3 {
        let (spell, rem) = split_at_byte(spe, 3);
        let second = spe[1];
        let third = spe[2];
        let fl = is_left_key(second) != is_left_key(third) || (is_fluent_listed(second, third, fls)
            || is_fluent_listed(third, second, fls));
        let mut head = spell.clone();
        if fl {
            head.push('+');
        } else if is_left_key(third) {
            head.push(',');
        } else {
            head.push('.');
        }
        assert(head@ == spell@ + chain_mark(
            second,
            third,
            fluent_listed(second, third, text::strs(fls@)) || fluent_listed(
                third,
                second,
                text::strs(fls@),
            ),
        ));
        let head_rem = concat(&head, &rem);
        if rem.len() > 0 {
            push_seq(&mut wordsrc, head_rem.clone());
            push_seq(&mut wordsrc, concat(&spell, &a));
            push_seq(&mut shorts, head_rem);
        } else {
            push_seq(&mut wordsrc, head.clone());
            push_seq(&mut shorts, spe.clone());
        }
    } else {
        push_seq(&mut wordsrc, concat(spe, &a));
        push_seq(&mut shorts, spe.clone());
    }
    assert(wordsrc.deep_view() =~= cj_main_src(spe@, text::strs(fls@)).0);
    assert(shorts.deep_view() =~= cj_main_src(spe@, text::strs(fls@)).1);
    SpellsForMakeWord { shorts, wordsrc }
}

fn cj_main_part_exec(spe: &Vec<char>, py: &Vec<char>, fls: &Vec<String>) -> (r: Vec<Vec<char>>)
    requires
        cj_splittable(spe@),
    ensures
        r.deep_view() == cj_main_part(spe@, py@, text::strs(fls@)),
{
    let SpellsForMakeWord { mut shorts, wordsrc } = cj_main_src_exec(spe, fls);
    let mut tail = lit("apy");
    push_all(&mut tail, py);
    push_all(&mut tail, &lit("..."));
    push_all(&mut tail, spe);
    proof {
        reveal_strlit("apy");
        reveal_strlit("...");
    }
    assert(tail@ =~= seq!['a', 'p', 'y'] + py@ + seq!['.', '.', '.'] + spe@);
    push_seq(&mut shorts, tail);
    let mut r: Vec<Vec<char>> = Vec::new();
    let mut i: usize = 0;
    while i < wordsrc.len()
        invariant
            i <= wordsrc.len(),
            r.deep_view() == wordsrc.deep_view().take(i as int).map_values(
                |w: Seq<char>| w + py@,
            ),
        decreases wordsrc.len() - i,
    {
        proof {
            text::lemma_chars_deep_view(&wordsrc@[i as int]);
        }
        push_seq(&mut r, concat(&wordsrc[i], py));
        i = i + 1;
        assert(r.deep_view() =~= wordsrc.deep_view().take(i as int).map_values(
            |w: Seq<char>| w + py@,
        ));
    }
    assert(wordsrc.deep_view().take(wordsrc.len() as int) =~= wordsrc.deep_view());
    push_seqs(&mut r, &shorts);
    assert(r.deep_view() =~= cj_main_part(spe@, py@, text::strs(fls@)));
    r
}

/// An xxyx spelling whose first byte can be split off: empty, or starting with
/// an ASCII character.
pub open spec fn xxyx_spell_ok(s: Seq<char>) -> bool {
    s.len() == 0 || (s[0] as u32) < 0x80
}

pub open spec fn xxyxs_ok(xs: Seq<Seq<char>>) -> bool {
    forall|i: int| 0 <= i < xs.len() ==> xxyx_spell_ok(#[trigger] xs[i])
}

/// The strokes part of each xxyx spelling of two characters or more: the
/// spelling without its first key.
pub open spec fn bihuas_of(xs: Seq<Seq<char>>) -> Seq<Seq<char>>
    decreases xs.len(),
{
    if xs.len() == 0 {
        seq![]
    } else if xs.last().len() >= 2 {
        bihuas_of(xs.drop_last()).push(xs.last().skip(1))
    } else {
        bihuas_of(xs.drop_last())
    }
}

fn bihuas_exec(xs: &Vec<Vec<char>>) -> (r: Vec<Vec<char>>)
    ensures
        r.deep_view() == bihuas_of(xs.deep_view()),
{
    let mut r: Vec<Vec<char>> = Vec::new();
    let mut i: usize = 0;
    while i < xs.len()
        invariant
            i <= xs.len(),
            r.deep_view() == bihuas_of(xs.deep_view().take(i as int)),
        decreases xs.len() - i,
    {
        proof {
            text::lemma_chars_deep_view(&xs@[i as int]);
            assert(xs.deep_view().take(i + 1).drop_last() =~= xs.deep_view().take(i as int));
        }
        let x = &xs[i];
        if x.len() >= 2 {
            let mut b: Vec<char> = Vec::new();
            let mut j: usize = 1;
            while j < x.len()
                invariant
                    1 <= j <= x.len(),
                    b@ == x@.subrange(1, j as int),
                decreases x.len() - j,
            {
                b.push(x[j]);
                j = j + 1;
                assert(b@ =~= x@.subrange(1, j as int));
            }
            assert(b@ =~= x@.skip(1));
            push_seq(&mut r, b);
        }
        i = i + 1;
    }
    assert(xs.deep_view().take(xs.len() as int) =~= xs.deep_view());
    r
}

/// The spells that the strokes part `xx` makes with the Cangjie key `cj` and
/// the shuangpin keys `py`, by the byte length of `xx`.
pub open spec fn polymer(id: u32, cj: Seq<char>, xx: Seq<char>, py: Seq<char>) -> Seq<Seq<char>> {
    let n = text::byte_len(xx);
    if id == 0 {
        if n == 1 {
            seq![cj + xx]
        } else if n == 2 || n == 3 {
            seq![cj + xx, cj + xx + py]
        } else {
            seq![cj + xx + py]
        }
    } else {
        if n == 1 {
            seq![cj + xx]
        } else {
            seq![cj + xx, cj + xx + py]
        }
    }
}

pub fn spell_polymer(id: u32, cj_fix: &str, xxyx_fix: &str, py_fix: &str) -> (r: Vec<String>)
    ensures
        text::strs(r@) == polymer(id, cj_fix@, xxyx_fix@, py_fix@),
{
    let cj = chars_of(cj_fix);
    let xx = chars_of(xxyx_fix);
    let py = chars_of(py_fix);
    let r = polymer_exec(id, &cj, &xx, &py);
    strings_of(&r)
}

/// The spells of a strokes part `xx` in the composed scheme: a one-byte part only
/// when some strokes part has length 1, a two-byte part with and without `py`.
pub open spec fn polymer_by_lens(lens: Seq<u32>, cj: Seq<char>, xx: Seq<char>, py: Seq<char>) -> Seq<
    Seq<char>,
> {
    let n = text::byte_len(xx);
    if n == 1 {
        if lens.contains(1) {
            seq![cj + xx]
        } else {
            seq![]
        }
    } else if n == 2 {
        seq![cj + xx, cj + xx + py]
    } else {
        seq![]
    }
}

pub fn spell_polymer_dependent_length_factor(
    id: u32,
    length_factor: &Vec<u32>,
    cj_fix: &str,
    xxyx_fix: &str,
    py_fix: &str,
) -> (r: Vec<String>)
    ensures
        text::strs(r@) == polymer_by_lens(length_factor@, cj_fix@, xxyx_fix@, py_fix@),
{
    let cj = chars_of(cj_fix);
    let xx = chars_of(xxyx_fix);
    let py = chars_of(py_fix);
    let r = polymer_by_lens_exec(length_factor, &cj, &xx, &py);
    strings_of(&r)
}

fn polymer_exec(id: u32, cj: &Vec<char>, xx: &Vec<char>, py: &Vec<char>) -> (r: Vec<Vec<char>>)
    ensures
        r.deep_view() == polymer(id, cj@, xx@, py@),
{
    let n = text::byte_len_upto4(xx);
    let cx = concat(cj, xx);
    let cxp = concat(&cx, py);
    let mut r: Vec<Vec<char>> = Vec::new();
    if id == 0 {
        if n == 1 {
            push_seq(&mut r, cx);
        } else if n == 2 || n == 3 {
            push_seq(&mut r, cx);
            push_seq(&mut r, cxp);
        } else {
            push_seq(&mut r, cxp);
        }
    } else {
        if n == 1 {
            push_seq(&mut r, cx);
        } else {
            push_seq(&mut r, cx);
            push_seq(&mut r, cxp);
        }
    }
    assert(r.deep_view() =~= polymer(id, cj@, xx@, py@));
    r
}

fn contains_u32(v: &Vec<u32>, x: u32) -> (r: bool)
    ensures
        r == v@.contains(x),
{
    let mut i: usize = 0;
    while i < v.len()
        invariant
            i <= v.len(),
            forall|j: int| 0 <= j < i ==> v@[j] != x,
        decreases v.len() - i,
    {
        if v[i] == x {
            return true;
        }
        i = i + 1;
    }
    false
}

fn polymer_by_lens_exec(lens: &Vec<u32>, cj: &Vec<char>, xx: &Vec<char>, py: &Vec<char>) -> (r: Vec<
    Vec<char>,
>)
    ensures
        r.deep_view() == polymer_by_lens(lens@, cj@, xx@, py@),
{
    let n = text::byte_len_upto4(xx);
    let cx = concat(cj, xx);
    let cxp = concat(&cx, py);
    let mut r: Vec<Vec<char>> = Vec::new();
    if n == 1 {
        if contains_u32(lens, 1) {
            push_seq(&mut r, cx);
        }
    } else if n == 2 {
        push_seq(&mut r, cx);
        push_seq(&mut r, cxp);
    }
    assert(r.deep_view() =~= polymer_by_lens(lens@, cj@, xx@, py@));
    r
}

/// The first spelling that is not empty.
pub open spec fn first_nonempty(cs: Seq<Seq<char>>) -> Option<Seq<char>>
    decreases cs.len(),
{
    if cs.len() == 0 {
        None
    } else {
        match first_nonempty(cs.drop_last()) {
            Some(c) => Some(c),
            None => if cs.last().len() > 0 {
                Some(cs.last())
            } else {
                None
            },
        }
    }
}

/// The key from the edge of the first non-empty Cangjie spelling (its last key
/// when `at_end`, else its first), swapped; `default` when there is no such
/// spelling or the edge byte is no whole character.
pub open spec fn edge_fix(
    e: Option<Seq<char>>,
    at_end: bool,
    d: Seq<(Seq<char>, Seq<char>)>,
    default: Seq<char>,
) -> Seq<char> {
    match e {
        None => default,
        Some(c) => {
            let ch = if at_end {
                c.last()
            } else {
                c[0]
            };
            if (ch as u32) < 0x80 {
                kt::swapped_key(d, seq![ch])
            } else {
                default
            }
        },
    }
}

fn edge_fix_exec(cjs: &Vec<Vec<char>>, at_end: bool, d: &SwapKeyDict, default: &str) -> (r: Vec<
    char,
>)
    ensures
        r@ == edge_fix(first_nonempty(cjs.deep_view()), at_end, kt::sd_view(d@), default@),
{
    let mut i: usize = 0;
    while i < cjs.len()
        invariant
            i <= cjs.len(),
            first_nonempty(cjs.deep_view().take(i as int)) is None,
        decreases cjs.len() - i,
    {
        proof {
            text::lemma_chars_deep_view(&cjs@[i as int]);
            assert(cjs.deep_view().take(i + 1).drop_last() =~= cjs.deep_view().take(i as int));
        }
        if cjs[i].len() > 0 {
            proof {
                lemma_first_nonempty_prefix(cjs.deep_view(), i as int);
            }
            let c = &cjs[i];
            let ch = if at_end {
                c[c.len() - 1]
            } else {
                c[0]
            };
            if (ch as u32) < 0x80 {
                let v = swap_key(text::char_string(ch), d);
                return chars_of(v.as_str());
            } else {
                return chars_of(default);
            }
        }
        i = i + 1;
    }
    assert(cjs.deep_view().take(cjs.len() as int) =~= cjs.deep_view());
    chars_of(default)
}

proof fn lemma_first_nonempty_prefix(cs: Seq<Seq<char>>, i: int)
    requires
        0 <= i < cs.len(),
        first_nonempty(cs.take(i)) is None,
        cs[i].len() > 0,
    ensures
        first_nonempty(cs) == Some(cs[i]),
    decreases cs.len(),
{
    if cs.len() == i + 1 {
        assert(cs.drop_last() =~= cs.take(i));
    } else {
        assert(cs.drop_last().take(i) =~= cs.take(i));
        lemma_first_nonempty_prefix(cs.drop_last(), i);
    }
}

pub open spec fn polymers(bs: Seq<Seq<char>>, cj: Seq<char>, py: Seq<char>) -> Seq<Seq<char>>
    decreases bs.len(),
{
    if bs.len() == 0 {
        seq![]
    } else {
        polymers(bs.drop_last(), cj, py) + polymer(0, cj, bs.last(), py)
    }
}

/// The spells of a word in the quick Cangjie scheme: for each strokes part, the
/// swapped last key of the first Cangjie spelling (`j` by default) with the
/// strokes part, and the shuangpin keys where they apply.
pub open spec fn cjq_spells(e: WordSpellsEntry, tables: SpellTables) -> Seq<Seq<char>> {
    let bs = bihuas_of(entry_xxyxs(e));
    if bs.len() > 0 {
        polymers(
            bs,
            edge_fix(first_nonempty(entry_cjs(e)), true, kt::sd_view(tables.swap@), "j"@),
            py::py_keys_or(e.word@[0], tables.shuangpin, Seq::<char>::empty()),
        )
    } else {
        seq![]
    }
}

/// The strokes part with the longest spelling; the later one among equals.
pub open spec fn last_longest(bs: Seq<Seq<char>>) -> Seq<char>
    decreases bs.len(),
{
    if bs.len() <= 1 {
        bs[0]
    } else {
        let p = last_longest(bs.drop_last());
        if bs.last().len() >= p.len() {
            bs.last()
        } else {
            p
        }
    }
}

/// The chain key of the second and third stroke of the longest strokes part,
/// where both are vowels; `q` otherwise.
pub open spec fn composed_key(bs: Seq<Seq<char>>, chain: Seq<Seq<char>>) -> char {
    let l = last_longest(bs);
    let x3 = if l.len() > 1 {
        l[1]
    } else {
        'q'
    };
    let x4 = if l.len() > 2 {
        l[2]
    } else {
        'q'
    };
    if spell::stroke_of_vowel(x3) is Some && spell::stroke_of_vowel(x4) is Some {
        spell::chain_lookup(chain, seq![x3, x4]).unwrap()
    } else {
        'q'
    }
}

/// The chain table has the key that the composed scheme asks for.
pub open spec fn chain_ready(bs: Seq<Seq<char>>, chain: Seq<Seq<char>>) -> bool {
    bs.len() > 0 ==> {
        let l = last_longest(bs);
        let x3 = if l.len() > 1 {
            l[1]
        } else {
            'q'
        };
        let x4 = if l.len() > 2 {
            l[2]
        } else {
            'q'
        };
        (spell::stroke_of_vowel(x3) is Some && spell::stroke_of_vowel(x4) is Some)
            ==> spell::chain_lookup(chain, seq![x3, x4]) is Some
    }
}

/// The strokes part with its first three bytes replaced by the composed key.
pub open spec fn composed_fix(h: Seq<char>, com: char) -> Seq<char> {
    seq![com] + if text::is_byte_boundary(h, 3) {
        h.skip(text::chars_in_bytes(h, 3))
    } else {
        Seq::<char>::empty()
    }
}

pub open spec fn composed_polymers(
    bs: Seq<Seq<char>>,
    lens: Seq<u32>,
    cj: Seq<char>,
    com: char,
    py: Seq<char>,
) -> Seq<Seq<char>>
    decreases bs.len(),
{
    if bs.len() == 0 {
        seq![]
    } else {
        composed_polymers(bs.drop_last(), lens, cj, com, py) + polymer_by_lens(
            lens,
            cj,
            composed_fix(bs.last(), com),
            py,
        )
    }
}

pub open spec fn byte_lens_u32(bs: Seq<Seq<char>>) -> Seq<u32> {
    bs.map_values(|b: Seq<char>| (text::byte_len(b) % 0x1_0000_0000) as u32)
}

/// The spells of a word in the composed Cangjie scheme: for each strokes part,
/// the swapped first key of the first Cangjie spelling (`q` by default), the
/// composed key and the rest of the strokes, with the shuangpin keys.
pub open spec fn cangjie1_spells(e: WordSpellsEntry, tables: SpellTables) -> Seq<Seq<char>> {
    let bs = bihuas_of(entry_xxyxs(e));
    if bs.len() > 0 {
        composed_polymers(
            bs,
            byte_lens_u32(bs),
            edge_fix(first_nonempty(entry_cjs(e)), false, kt::sd_view(tables.swap_start@), "q"@),
            composed_key(bs, text::strs(tables.xxyx_chain@)),
            py::py_keys_or(e.word@[0], tables.shuangpin, Seq::<char>::empty()),
        )
    } else {
        seq![]
    }
}

fn last_longest_exec(bs: &Vec<Vec<char>>) -> (r: usize)
    requires
        bs.len() > 0,
    ensures
        r < bs.len(),
        bs.deep_view()[r as int] == last_longest(bs.deep_view()),
{
    let mut best: usize = 0;
    let mut i: usize = 1;
    proof {
        text::lemma_chars_deep_view(&bs@[0]);
        assert(bs.deep_view().take(1) =~= seq![bs.deep_view()[0]]);
    }
    while i < bs.len()
        invariant
            1 <= i <= bs.len(),
            best < i,
            bs.deep_view()[best as int] == last_longest(bs.deep_view().take(i as int)),
        decreases bs.len() - i,
    {
        proof {
            text::lemma_chars_deep_view(&bs@[i as int]);
            text::lemma_chars_deep_view(&bs@[best as int]);
            assert(bs.deep_view().take(i + 1).drop_last() =~= bs.deep_view().take(i as int));
        }
        if bs[i].len() >= bs[best].len() {
            best = i;
        }
        i = i + 1;
    }
    assert(bs.deep_view().take(bs.len() as int) =~= bs.deep_view());
    best
}

impl WordSpellsEntry {
    pub fn from_tuple(t: (&String, &Vec<SpecifySpelling>)) -> (r: Self)
        ensures
            r.word@ == t.0@,
            ss_view(r.spells@) == ss_view(t.1@),
    {
        let spells = copy_spellings(t.1);
        WordSpellsEntry { word: t.0.clone(), spells }
    }

    /// The spells of the word under the main Cangjie scheme, with the spells
    /// that make words set apart.
    pub fn to_cjmain_with_specifier(
        self,
        swap_dict: &SwapKeyDict,
        shuangpin: &ShuangPinTables,
        fluents: &Vec<String>,
    ) -> (r: WithMakeWordSpecifier)
        requires
            cjmain_ready(self.word@, entry_cjs(self), kt::sd_view(swap_dict@)),
        ensures
            wm_view(r) == cjmain_specifier_of(
                self.word@,
                entry_cjs(self),
                kt::sd_view(swap_dict@),
                *shuangpin,
                text::strs(fluents@),
            ),
    {
        let w = chars_of(self.word.as_str());
        let py = py_keys(w[0], shuangpin, "vva");
        let cjs = spells_of_kind(&self.spells, YongSpelling::Cangjie);
        let n = cjs.len();
        let ghost d = kt::sd_view(swap_dict@);
        let ghost fls = text::strs(fluents@);
        let mut specified: Vec<Vec<char>> = Vec::new();
        let mut other: Vec<Vec<char>> = Vec::new();
        let mut i: usize = 0;
        while i < n
            invariant
                i <= n,
                n == cjs.len(),
                cjs_splittable(cjs.deep_view(), d),
                d == kt::sd_view(swap_dict@),
                fls == text::strs(fluents@),
                (specified.deep_view(), other.deep_view()) == cjmain_specified(
                    cjs.deep_view().take(i as int),
                    d,
                    n as nat,
                    py@,
                    fls,
                ),
            decreases n - i,
        {
            proof {
                text::lemma_chars_deep_view(&cjs@[i as int]);
                assert(cjs.deep_view().take(i + 1).drop_last() =~= cjs.deep_view().take(i as int));
                assert(cjs.deep_view()[i as int] == cjs@[i as int]@);
            }
            let spe = swap_spell(&cjs[i], swap_dict);
            let (a, b) = cj_part_with_specifier(&cjs[i], &spe, n, &py, fluents);
            push_seqs(&mut specified, &a);
            push_seqs(&mut other, &b);
            i = i + 1;
        }
        assert(cjs.deep_view().take(n as int) =~= cjs.deep_view());
        WithMakeWordSpecifier {
            specified_for_make_word_spells: strings_of(&specified),
            other_spells: strings_of(&other),
        }
    }

    /// The spells of the word under the main Cangjie scheme, with the start-key
    /// swap dictionary.
    pub fn to_cjmain(self, tables: &SpellTables) -> (r: Vec<String>)
        requires
            cjmain_ready(self.word@, entry_cjs(self), kt::sd_view(tables.swap_start@)),
        ensures
            text::strs(r@) == cjmain_all(
                entry_cjs(self),
                kt::sd_view(tables.swap_start@),
                py::py_keys_or(self.word@[0], tables.shuangpin, "vva"@),
                text::strs(tables.fluents@),
            ),
    {
        let w = chars_of(self.word.as_str());
        let py = py_keys(w[0], &tables.shuangpin, "vva");
        let cjs = spells_of_kind(&self.spells, YongSpelling::Cangjie);
        let ghost d = kt::sd_view(tables.swap_start@);
        let ghost fls = text::strs(tables.fluents@);
        let mut out: Vec<Vec<char>> = Vec::new();
        let mut i: usize = 0;
        while i < cjs.len()
            invariant
                i <= cjs.len(),
                cjs_splittable(cjs.deep_view(), d),
                d == kt::sd_view(tables.swap_start@),
                fls == text::strs(tables.fluents@),
                out.deep_view() == cjmain_all(cjs.deep_view().take(i as int), d, py@, fls),
            decreases cjs.len() - i,
        {
            proof {
                text::lemma_chars_deep_view(&cjs@[i as int]);
                assert(cjs.deep_view().take(i + 1).drop_last() =~= cjs.deep_view().take(i as int));
                assert(cjs.deep_view()[i as int] == cjs@[i as int]@);
            }
            let spe = swap_spell(&cjs[i], &tables.swap_start);
            let part = cj_main_part_exec(&spe, &py, &tables.fluents);
            push_seqs(&mut out, &part);
            i = i + 1;
        }
        assert(cjs.deep_view().take(cjs.len() as int) =~= cjs.deep_view());
        strings_of(&out)
    }

    /// The strokes part of each xxyx spelling (the spelling without its first key).
    pub fn get_xxyx_bihuas(&self) -> (r: Vec<String>)
        requires
            xxyxs_ok(entry_xxyxs(*self)),
        ensures
            text::strs(r@) == bihuas_of(entry_xxyxs(*self)),
    {
        let xs = spells_of_kind(&self.spells, YongSpelling::Xxyx);
        let bs = bihuas_exec(&xs);
        strings_of(&bs)
    }

    /// All spells of the word, of every scheme.
    pub fn just_pass_all_spells(self) -> (r: Vec<String>)
        ensures
            text::strs(r@) == ss_view(self.spells@).map_values(
                |s: (YongSpelling, Seq<char>)| s.1,
            ),
    {
        let mut r: Vec<String> = Vec::new();
        let mut i: usize = 0;
        while i < self.spells.len()
            invariant
                i <= self.spells.len(),
                text::strs(r@) == ss_view(self.spells@).take(i as int).map_values(
                    |s: (YongSpelling, Seq<char>)| s.1,
                ),
            decreases self.spells.len() - i,
        {
            let ghost before = text::strs(r@);
            let x = self.spells[i].spell.clone();
            r.push(x);
            assert(text::strs(r@) =~= before.push(x@));
            i = i + 1;
            assert(ss_view(self.spells@).take(i as int).map_values(
                |s: (YongSpelling, Seq<char>)| s.1,
            ) =~= ss_view(self.spells@).take(i - 1).map_values(
                |s: (YongSpelling, Seq<char>)| s.1,
            ).push(x@));
        }
        assert(ss_view(self.spells@).take(self.spells.len() as int) =~= ss_view(self.spells@));
        r
    }

    /// The spells of the word in the quick Cangjie scheme.
    pub fn to_cjq_xxyx_py(self, tables: &SpellTables) -> (r: Vec<String>)
        requires
            xxyxs_ok(entry_xxyxs(self)),
            bihuas_of(entry_xxyxs(self)).len() > 0 ==> self.word@.len() > 0,
        ensures
            text::strs(r@) == cjq_spells(self, *tables),
    {
        let xs = spells_of_kind(&self.spells, YongSpelling::Xxyx);
        let bs = bihuas_exec(&xs);
        if bs.len() == 0 {
            return Vec::new();
        }
        let cjs = spells_of_kind(&self.spells, YongSpelling::Cangjie);
        let w = chars_of(self.word.as_str());
        let py = py_keys(w[0], &tables.shuangpin, "");
        let cj = edge_fix_exec(&cjs, true, &tables.swap, "j");
        let mut out: Vec<Vec<char>> = Vec::new();
        let mut i: usize = 0;
        while i < bs.len()
            invariant
                i <= bs.len(),
                out.deep_view() == polymers(bs.deep_view().take(i as int), cj@, py@),
            decreases bs.len() - i,
        {
            proof {
                text::lemma_chars_deep_view(&bs@[i as int]);
                assert(bs.deep_view().take(i + 1).drop_last() =~= bs.deep_view().take(i as int));
            }
            let part = polymer_exec(0, &cj, &bs[i], &py);
            push_seqs(&mut out, &part);
            i = i + 1;
        }
        assert(bs.deep_view().take(bs.len() as int) =~= bs.deep_view());
        assert(Seq::<char>::empty() == ""@) by {
            reveal_strlit("");
        }
        strings_of(&out)
    }

    /// The spells of the word in the composed Cangjie scheme.
    pub fn to_cangjie1_xxyx_py(self, tables: &SpellTables) -> (r: Vec<String>)
        requires
            xxyxs_ok(entry_xxyxs(self)),
            bihuas_of(entry_xxyxs(self)).len() > 0 ==> self.word@.len() > 0,
            chain_ready(bihuas_of(entry_xxyxs(self)), text::strs(tables.xxyx_chain@)),
        ensures
            text::strs(r@) == cangjie1_spells(self, *tables),
    {
        let xs = spells_of_kind(&self.spells, YongSpelling::Xxyx);
        let bs = bihuas_exec(&xs);
        if bs.len() == 0 {
            return Vec::new();
        }
        let best = last_longest_exec(&bs);
        let l = &bs[best];
        proof {
            text::lemma_chars_deep_view(l);
        }
        let x3 = if l.len() > 1 {
            l[1]
        } else {
            'q'
        };
        let x4 = if l.len() > 2 {
            l[2]
        } else {
            'q'
        };
        let com = match (BihuaXxyx::from_aeuio(x3), BihuaXxyx::from_aeuio(x4)) {
            (Some(c3), Some(c4)) => c3.chain_as(c4, &tables.xxyx_chain),
            _ => 'q',
        };
        let cjs = spells_of_kind(&self.spells, YongSpelling::Cangjie);
        let w = chars_of(self.word.as_str());
        let py = py_keys(w[0], &tables.shuangpin, "");
        let cj = edge_fix_exec(&cjs, false, &tables.swap_start, "q");
        let mut lens: Vec<u32> = Vec::new();
        let mut k: usize = 0;
        while k < bs.len()
            invariant
                k <= bs.len(),
                lens@ == byte_lens_u32(bs.deep_view().take(k as int)),
            decreases bs.len() - k,
        {
            proof {
                text::lemma_chars_deep_view(&bs@[k as int]);
            }
            lens.push(text::byte_len_u32(&bs[k]));
            k = k + 1;
            assert(lens@ =~= byte_lens_u32(bs.deep_view().take(k as int)));
        }
        assert(bs.deep_view().take(bs.len() as int) =~= bs.deep_view());
        let mut out: Vec<Vec<char>> = Vec::new();
        let mut i: usize = 0;
        while i < bs.len()
            invariant
                i <= bs.len(),
                lens@ == byte_lens_u32(bs.deep_view()),
                out.deep_view() == composed_polymers(
                    bs.deep_view().take(i as int),
                    lens@,
                    cj@,
                    com,
                    py@,
                ),
            decreases bs.len() - i,
        {
            proof {
                text::lemma_chars_deep_view(&bs@[i as int]);
                assert(bs.deep_view().take(i + 1).drop_last() =~= bs.deep_view().take(i as int));
            }
            let h = &bs[i];
            let mut fix: Vec<char> = Vec::new();
            fix.push(com);
            match text::char_count_at_byte(h, 3) {
                Some(c) => {
                    let mut j = c;
                    let ghost f0 = fix@;
                    while j < h.len()
                        invariant
                            c <= j <= h.len(),
                            fix@ == f0 + h@.subrange(c as int, j as int),
                        decreases h.len() - j,
                    {
                        fix.push(h[j]);
                        j = j + 1;
                        assert(fix@ =~= f0 + h@.subrange(c as int, j as int));
                    }
                    assert(h@.subrange(c as int, h.len() as int) =~= h@.skip(c as int));
                },
                None => {},
            }
            assert(fix@ =~= composed_fix(h@, com));
            let part = polymer_by_lens_exec(&lens, &cj, &fix, &py);
            push_seqs(&mut out, &part);
            i = i + 1;
        }
        assert(bs.deep_view().take(bs.len() as int) =~= bs.deep_view());
        assert(Seq::<char>::empty() == ""@) by {
            reveal_strlit("");
        }
        strings_of(&out)
    }
}

pub enum DictTranslator {
    CjqYongPy,
    CjheadYongcomposedPy,
    Cjmain,
    Free,
}

pub open spec fn entry_of(e: (String, Vec<SpecifySpelling>)) -> WordSpellsEntry {
    WordSpellsEntry { word: e.0, spells: e.1 }
}

/// The spells that a translator gives a word.
pub open spec fn translate(t: DictTranslator, e: WordSpellsEntry, tables: SpellTables) -> Seq<
    Seq<char>,
> {
    match t {
        DictTranslator::CjqYongPy => cjq_spells(e, tables),
        DictTranslator::CjheadYongcomposedPy => cangjie1_spells(e, tables),
        DictTranslator::Cjmain => cjmain_all(
            entry_cjs(e),
            kt::sd_view(tables.swap_start@),
            py::py_keys_or(e.word@[0], tables.shuangpin, "vva"@),
            text::strs(tables.fluents@),
        ),
        DictTranslator::Free => ss_view(e.spells@).map_values(|s: (YongSpelling, Seq<char>)| s.1),
    }
}

/// What the translator needs of a word.
pub open spec fn translate_ready(t: DictTranslator, e: WordSpellsEntry, tables: SpellTables) -> bool {
    match t {
        DictTranslator::CjqYongPy => xxyxs_ok(entry_xxyxs(e)) && (bihuas_of(entry_xxyxs(e)).len()
            > 0 ==> e.word@.len() > 0),
        DictTranslator::CjheadYongcomposedPy => xxyxs_ok(entry_xxyxs(e)) && (bihuas_of(
            entry_xxyxs(e),
        ).len() > 0 ==> e.word@.len() > 0) && chain_ready(
            bihuas_of(entry_xxyxs(e)),
            text::strs(tables.xxyx_chain@),
        ),
        DictTranslator::Cjmain => cjmain_ready(
            e.word@,
            entry_cjs(e),
            kt::sd_view(tables.swap_start@),
        ),
        DictTranslator::Free => true,
    }
}

/// Each spell of each word, paired with the word.
pub open spec fn word_spell_pairs(ws: Seq<(Seq<char>, Seq<Seq<char>>)>) -> Seq<(Seq<char>, Seq<char>)>
    decreases ws.len(),
{
    if ws.len() == 0 {
        seq![]
    } else {
        word_spell_pairs(ws.drop_last()) + with_word(ws.last().1, ws.last().0)
    }
}

pub open spec fn translate_all(
    t: DictTranslator,
    d: Seq<(String, Vec<SpecifySpelling>)>,
    tables: SpellTables,
) -> Seq<(Seq<char>, Seq<Seq<char>>)> {
    d.map_values(|e: (String, Vec<SpecifySpelling>)| (e.0@, translate(t, entry_of(e), tables)))
}

pub open spec fn specify_all(
    d: Seq<(String, Vec<SpecifySpelling>)>,
    sd: Seq<(Seq<char>, Seq<char>)>,
    sp: ShuangPinTables,
    fls: Seq<Seq<char>>,
) -> Seq<(Seq<char>, SpecView)> {
    d.map_values(
        |e: (String, Vec<SpecifySpelling>)|
            (e.0@, cjmain_specifier_of(e.0@, entry_cjs(entry_of(e)), sd, sp, fls)),
    )
}

impl DictTranslator {
    /// The spell table of the dictionary under the main Cangjie scheme, with the
    /// make-word entries; every translator uses the main scheme here.
    pub fn flip_word_spells_with_make_word_specifier_byswapdict(
        &self,
        dict: YongDictWordSpells,
        swapdict: &SwapKeyDict,
        shuangpin: &ShuangPinTables,
        fluents: &Vec<String>,
    ) -> (r: Vec<(String, Vec<String>)>)
        requires
            forall|i: int|
                0 <= i < dict@.len() ==> cjmain_ready(
                    (#[trigger] dict@[i]).0@,
                    entry_cjs(entry_of(dict@[i])),
                    kt::sd_view(swapdict@),
                ),
        ensures
            sws_view(r@) == flip_specified(
                specify_all(dict@, kt::sd_view(swapdict@), *shuangpin, text::strs(fluents@)),
            ),
    {
        let ghost target = specify_all(
            dict@,
            kt::sd_view(swapdict@),
            *shuangpin,
            text::strs(fluents@),
        );
        let mut j: Vec<(String, WithMakeWordSpecifier)> = Vec::new();
        let mut i: usize = 0;
        while i < dict.len()
            invariant
                i <= dict.len(),
                target == specify_all(
                    dict@,
                    kt::sd_view(swapdict@),
                    *shuangpin,
                    text::strs(fluents@),
                ),
                forall|q: int|
                    0 <= q < dict@.len() ==> cjmain_ready(
                        (#[trigger] dict@[q]).0@,
                        entry_cjs(entry_of(dict@[q])),
                        kt::sd_view(swapdict@),
                    ),
                wms_view(j@) == target.take(i as int),
            decreases dict.len() - i,
        {
            let e = WordSpellsEntry::from_tuple((&dict[i].0, &dict[i].1));
            assert(entry_cjs(e) == entry_cjs(entry_of(dict@[i as int])));
            let w = e.word.clone();
            let spec = e.to_cjmain_with_specifier(swapdict, shuangpin, fluents);
            let ghost before = wms_view(j@);
            let ghost entry = (w@, wm_view(spec));
            assert(entry == target[i as int]);
            j.push((w, spec));
            assert(wms_view(j@) =~= before.push(entry));
            assert(target.take(i + 1) =~= target.take(i as int).push(target[i as int]));
            i = i + 1;
        }
        assert(target.take(dict.len() as int) =~= target);
        specifier_to_wordspells(j)
    }

    /// The spell table of the dictionary under the main Cangjie scheme, with the
    /// make-word entries, given the swap dictionary that a swap file holds.
    pub fn flip_word_spells_with_make_word_specifier(
        &self,
        dict: YongDictWordSpells,
        swap_dict: &SwapKeyDict,
        shuangpin: &ShuangPinTables,
        fluents: &Vec<String>,
    ) -> (r: Vec<(String, Vec<String>)>)
        requires
            forall|i: int|
                0 <= i < dict@.len() ==> cjmain_ready(
                    (#[trigger] dict@[i]).0@,
                    entry_cjs(entry_of(dict@[i])),
                    kt::sd_view(swap_dict@),
                ),
        ensures
            sws_view(r@) == flip_specified(
                specify_all(dict@, kt::sd_view(swap_dict@), *shuangpin, text::strs(fluents@)),
            ),
    {
        self.flip_word_spells_with_make_word_specifier_byswapdict(
            dict,
            swap_dict,
            shuangpin,
            fluents,
        )
    }

    /// The spell table of the dictionary under the translator's scheme: each
    /// spell with the distinct words that have it, in order of first appearance.
    pub fn flip_word_spells(&self, dict: YongDictWordSpells, tables: &SpellTables) -> (r: Vec<
        (String, Vec<String>),
    >)
        requires
            forall|i: int|
                0 <= i < dict@.len() ==> translate_ready(
                    *self,
                    entry_of(#[trigger] dict@[i]),
                    *tables,
                ),
        ensures
            dict::gview(r@) == dict::group_all_new(
                word_spell_pairs(translate_all(*self, dict@, *tables)),
            ),
    {
        let ghost tr = translate_all(*self, dict@, *tables);
        let mut init: Vec<(String, Vec<String>)> = Vec::new();
        let mut i: usize = 0;
        while i < dict.len()
            invariant
                i <= dict.len(),
                tr == translate_all(*self, dict@, *tables),
                forall|q: int|
                    0 <= q < dict@.len() ==> translate_ready(
                        *self,
                        entry_of(#[trigger] dict@[q]),
                        *tables,
                    ),
                dict::gview(init@) == dict::group_all_new(word_spell_pairs(tr.take(i as int))),
            decreases dict.len() - i,
        {
            let e = WordSpellsEntry::from_tuple((&dict[i].0, &dict[i].1));
            let word = e.word.clone();
            assert(translate_ready(*self, e, *tables) == translate_ready(
                *self,
                entry_of(dict@[i as int]),
                *tables,
            ));
            assert(translate(*self, e, *tables) == translate(
                *self,
                entry_of(dict@[i as int]),
                *tables,
            ));
            let spells = match self {
                DictTranslator::CjqYongPy => e.to_cjq_xxyx_py(tables),
                DictTranslator::CjheadYongcomposedPy => e.to_cangjie1_xxyx_py(tables),
                DictTranslator::Cjmain => e.to_cjmain(tables),
                DictTranslator::Free => e.just_pass_all_spells(),
            };
            proof {
                assert(tr.take(i + 1).drop_last() =~= tr.take(i as int));
                assert(tr[i as int] == (word@, text::strs(spells@)));
            }
            let ghost base = word_spell_pairs(tr.take(i as int));
            let mut m: usize = 0;
            while m < spells.len()
                invariant
                    m <= spells.len(),
                    dict::gview(init@) == dict::group_all_new(
                        base + with_word(text::strs(spells@).take(m as int), word@),
                    ),
                decreases spells.len() - m,
            {
                proof {
                    let a = base + with_word(text::strs(spells@).take(m + 1), word@);
                    assert(a.drop_last() =~= base + with_word(
                        text::strs(spells@).take(m as int),
                        word@,
                    ));
                    assert(a.last() == (spells@[m as int]@, word@));
                }
                dict::group_insert_new(&mut init, spells[m].clone(), word.clone());
                m = m + 1;
            }
            proof {
                assert(text::strs(spells@).take(spells.len() as int) =~= text::strs(spells@));
            }
            i = i + 1;
        }
        assert(tr.take(dict.len() as int) =~= tr);
        init
    }
}


/// One of the chain marks `+`, `,` and `.`.
pub open spec fn is_chain_mark(c: char) -> bool {
    c == '+' || c == ',' || c == '.'
}

/// `s` is `spe` with a chain mark put after its first `k` keys, then `tail`.
pub open spec fn marked_after(s: Seq<char>, spe: Seq<char>, k: int, tail: Seq<char>) -> bool {
    &&& 0 <= k <= spe.len()
    &&& s.len() == spe.len() + 1 + tail.len()
    &&& s.take(k) == spe.take(k)
    &&& is_chain_mark(s[k])
    &&& s.skip(k + 1) == spe.skip(k) + tail
}

proof fn lemma_marked(spe: Seq<char>, k: int, m: Seq<char>, tail: Seq<char>)
    requires
        0 <= k <= spe.len(),
        m.len() == 1,
        is_chain_mark(m[0]),
    ensures
        marked_after(spe.take(k) + m + spe.skip(k) + tail, spe, k, tail),
{
    let s = spe.take(k) + m + spe.skip(k) + tail;
    assert(s.take(k) =~= spe.take(k));
    assert(s[k] == m[0]);
    assert(s.skip(k + 1) =~= spe.skip(k) + tail);
}

proof fn lemma_split_point(spe: Seq<char>)
    requires
        spe.len() >= 3,
        text::is_byte_boundary(spe, 3),
    ensures
        0 <= text::chars_in_bytes(spe, 3) <= spe.len(),
{
    let w = choose|w: int| 0 <= w <= spe.len() && text::byte_len(#[trigger] spe.take(w)) == 3;
    text::lemma_chars_in_bytes(spe, 3, w);
}

/// What one Cangjie spelling gives a word under the scheme with make-word
/// specifiers. When the word may make words with it, there is exactly one
/// make-word spell: for a swapped spelling of three or more keys it is the
/// spelling with a chain mark after its first three keys, then the shuangpin
/// keys, so dropping the mark and the shuangpin keys gives the spelling back;
/// for a shorter spelling it is the spelling, `a` and the shuangpin keys.
/// The other spells are the marked spelling (without shuangpin keys) and the
/// first three keys with `a` and the shuangpin keys, or, where no keys follow
/// the first three, the spelling itself and the marked one; a short spelling
/// gives itself. The last other spell is `ah`, the shuangpin keys, `...` and
/// the spelling.
pub proof fn lemma_make_word_spells(sp: Seq<char>, spe: Seq<char>, n: nat, py: Seq<char>, fls: Seq<Seq<char>>)
    requires
        cj_splittable(spe),
    ensures
        ({
            let (specified, other) = cj_with_specifier(sp, spe, n, py, fls);
            let may = sp.len() > 0 && (sp[0] != 'x' || n == 1 || text::byte_len(sp) == 1);
            let k = text::chars_in_bytes(spe, 3);
            let last = seq!['a', 'h'] + py + seq!['.', '.', '.'] + spe;
            &&& specified.len() == (if may { 1int } else { 0int })
            &&& (may && spe.len() >= 3 ==> marked_after(specified[0], spe, k, py))
            &&& (may && spe.len() >= 3 ==> specified[0][k] == if yubi::left_key(spe[1])
                != yubi::left_key(spe[2]) || fluent_listed(spe[1], spe[2], fls) {
                '+'
            } else if yubi::left_key(spe[2]) {
                ','
            } else {
                '.'
            })
            &&& (may && spe.len() < 3 ==> specified[0] == spe + seq!['a'] + py)
            &&& (spe.len() < 3 ==> other == seq![spe, last])
            &&& (spe.len() >= 3 && k < spe.len() ==> {
                &&& other.len() == 3
                &&& marked_after(other[0], spe, k, seq![])
                &&& other[1] == spe.take(k) + seq!['a'] + py
                &&& other[2] == last
            })
            &&& (spe.len() >= 3 && k >= spe.len() ==> {
                &&& other.len() == 3
                &&& other[0] == spe
                &&& marked_after(other[1], spe, k, seq![])
                &&& other[2] == last
            })
        }),
{
    if spe.len() >= 3 {
        lemma_split_point(spe);
        let k = text::chars_in_bytes(spe, 3);
        let m = chain_mark(spe[1], spe[2], fluent_listed(spe[1], spe[2], fls));
        assert(m.len() == 1 && is_chain_mark(m[0]));
        lemma_marked(spe, k, m, py);
        lemma_marked(spe, k, m, seq![]);
        assert(spe.take(k) + m + spe.skip(k) + py =~= spe.take(k) + m + spe.skip(k) + py);
        assert(spe.take(k) + m + spe.skip(k) + Seq::<char>::empty() =~= spe.take(k) + m + spe.skip(k));
        if k >= spe.len() {
            assert(spe.skip(k) =~= Seq::<char>::empty());
            assert(spe.take(k) =~= spe);
            assert(spe.take(k) + m + spe.skip(k) =~= spe.take(k) + m);
        }
    }
}

/// What one Cangjie spelling gives a word under the main Cangjie scheme. A
/// swapped spelling of fewer than three keys gives the spelling, `a` and the
/// shuangpin keys (to make words), the spelling itself, and `apy`, the
/// shuangpin keys, `...` and the spelling. A longer one gives the spelling
/// with a chain mark after its first three keys and the shuangpin keys, and,
/// when keys follow the first three, the first three with `a` and the
/// shuangpin keys and the marked spelling; else the spelling itself; then the
/// `apy` spell.
pub proof fn lemma_main_spells(spe: Seq<char>, py: Seq<char>, fls: Seq<Seq<char>>)
    requires
        cj_splittable(spe),
    ensures
        ({
            let r = cj_main_part(spe, py, fls);
            let k = text::chars_in_bytes(spe, 3);
            let last = seq!['a', 'p', 'y'] + py + seq!['.', '.', '.'] + spe;
            &&& (spe.len() < 3 ==> r == seq![spe + seq!['a'] + py, spe, last])
            &&& (spe.len() >= 3 ==> r[0][k] == if yubi::left_key(spe[1]) != yubi::left_key(spe[2])
                || fluent_listed(spe[1], spe[2], fls) || fluent_listed(spe[2], spe[1], fls) {
                '+'
            } else if yubi::left_key(spe[2]) {
                ','
            } else {
                '.'
            })
            &&& (spe.len() >= 3 && k < spe.len() ==> {
                &&& r.len() == 4
                &&& marked_after(r[0], spe, k, py)
                &&& r[1] == spe.take(k) + seq!['a'] + py
                &&& marked_after(r[2], spe, k, seq![])
                &&& r[3] == last
            })
            &&& (spe.len() >= 3 && k >= spe.len() ==> {
                &&& r.len() == 3
                &&& marked_after(r[0], spe, k, py)
                &&& r[1] == spe
                &&& r[2] == last
            })
        }),
{
    let r = cj_main_part(spe, py, fls);
    let (wordsrc, shorts) = cj_main_src(spe, fls);
    assert(r == wordsrc.map_values(|w: Seq<char>| w + py) + shorts.push(
        seq!['a', 'p', 'y'] + py + seq!['.', '.', '.'] + spe,
    ));
    if spe.len() >= 3 {
        lemma_split_point(spe);
        let k = text::chars_in_bytes(spe, 3);
        let m = chain_mark(
            spe[1],
            spe[2],
            fluent_listed(spe[1], spe[2], fls) || fluent_listed(spe[2], spe[1], fls),
        );
        assert(m.len() == 1 && is_chain_mark(m[0]));
        lemma_marked(spe, k, m, py);
        lemma_marked(spe, k, m, seq![]);
        assert(spe.take(k) + m + spe.skip(k) + Seq::<char>::empty() =~= spe.take(k) + m + spe.skip(k));
        if k >= spe.len() {
            assert(spe.skip(k) =~= Seq::<char>::empty());
            assert(spe.take(k) + m + spe.skip(k) =~= spe.take(k) + m);
            assert(spe.take(k) + m + spe.skip(k) + py =~= spe.take(k) + m + py);
            assert(r =~= seq![spe.take(k) + m + py, spe, seq!['a', 'p', 'y'] + py + seq!['.', '.', '.'] + spe]);
        } else {
            assert(r =~= seq![
                spe.take(k) + m + spe.skip(k) + py,
                spe.take(k) + seq!['a'] + py,
                spe.take(k) + m + spe.skip(k),
                seq!['a', 'p', 'y'] + py + seq!['.', '.', '.'] + spe,
            ]);
        }
    } else {
        assert(r =~= seq![spe + seq!['a'] + py, spe, seq!['a', 'p', 'y'] + py + seq!['.', '.', '.'] + spe]);
    }
}

/// In the quick scheme (`id` 0) every spell of a strokes part is the Cangjie
/// key and the strokes, without or with the shuangpin keys: without them (and
/// first) for a part of one to three bytes, with them (and last) for any part
/// but a one-byte one; so a one-byte part gives the single spell without them.
/// Any other `id` gives the spell without them, and for a part longer than one
/// byte also the one with them.
pub proof fn lemma_polymer_spells(id: u32, cj: Seq<char>, xx: Seq<char>, py: Seq<char>)
    ensures
        ({
            let r = polymer(id, cj, xx, py);
            let n = text::byte_len(xx);
            &&& forall|i: int| 0 <= i < r.len() ==> #[trigger] r[i] == cj + xx || r[i] == cj + xx + py
            &&& id == 0 ==> {
                &&& r.len() == (if 2 <= n <= 3 { 2int } else { 1int })
                &&& (1 <= n <= 3 ==> r[0] == cj + xx)
                &&& (n != 1 ==> r[r.len() - 1] == cj + xx + py)
            }
            &&& id != 0 ==> {
                &&& r.len() == (if n == 1 { 1int } else { 2int })
                &&& r[0] == cj + xx
                &&& (n != 1 ==> r[1] == cj + xx + py)
            }
        }),
{
}

/// In the composed scheme a strokes part of two bytes gives both the Cangjie
/// key with the strokes and that with the shuangpin keys after; a one-byte
/// part gives only the first, and only where some strokes part of the word has
/// length one; any other part gives nothing.
pub proof fn lemma_polymer_by_lens_spells(lens: Seq<u32>, cj: Seq<char>, xx: Seq<char>, py: Seq<char>)
    ensures
        ({
            let r = polymer_by_lens(lens, cj, xx, py);
            let n = text::byte_len(xx);
            &&& (n == 2 ==> r == seq![cj + xx, cj + xx + py])
            &&& (n == 1 && lens.contains(1) ==> r == seq![cj + xx])
            &&& (n != 2 && !(n == 1 && lens.contains(1)) ==> r.len() == 0)
        }),
{
}


/// The spells of a word's Cangjie spellings under the make-word scheme are
/// those of each spelling, joined in order: a single spelling gives what
/// `cj_with_specifier` gives it, and the spells of two runs of spellings are
/// the spells of the first run followed by those of the second.
pub proof fn lemma_cjmain_specified_joins(
    a: Seq<Seq<char>>,
    b: Seq<Seq<char>>,
    d: Seq<(Seq<char>, Seq<char>)>,
    n: nat,
    py: Seq<char>,
    fls: Seq<Seq<char>>,
)
    ensures
        ({
            let x = cjmain_specified(a, d, n, py, fls);
            let y = cjmain_specified(b, d, n, py, fls);
            cjmain_specified(a + b, d, n, py, fls) == (x.0 + y.0, x.1 + y.1)
        }),
        b.len() == 1 ==> cjmain_specified(b, d, n, py, fls) == cj_with_specifier(
            b[0],
            kt::swapped_spell(d, b[0]),
            n,
            py,
            fls,
        ),
    decreases b.len(),
{
    if b.len() == 0 {
        assert(a + b =~= a);
        let x = cjmain_specified(a, d, n, py, fls);
        assert(x.0 + Seq::<Seq<char>>::empty() =~= x.0);
        assert(x.1 + Seq::<Seq<char>>::empty() =~= x.1);
    } else {
        lemma_cjmain_specified_joins(a, b.drop_last(), d, n, py, fls);
        assert((a + b).drop_last() =~= a + b.drop_last());
        assert((a + b).last() == b.last());
        let x = cjmain_specified(a, d, n, py, fls);
        let y0 = cjmain_specified(b.drop_last(), d, n, py, fls);
        let part = cj_with_specifier(b.last(), kt::swapped_spell(d, b.last()), n, py, fls);
        assert(x.0 + y0.0 + part.0 =~= x.0 + (y0.0 + part.0));
        assert(x.1 + y0.1 + part.1 =~= x.1 + (y0.1 + part.1));
        if b.len() == 1 {
            assert(b.drop_last() =~= Seq::<Seq<char>>::empty());
            assert(Seq::<Seq<char>>::empty() + part.0 =~= part.0);
            assert(Seq::<Seq<char>>::empty() + part.1 =~= part.1);
        }
    }
}

/// The spells of a word's Cangjie spellings under the main scheme are those
/// of each spelling, joined in order: a single spelling gives what
/// `cj_main_part` gives it, and two runs of spellings give the spells of the
/// first run followed by those of the second.
pub proof fn lemma_cjmain_all_joins(
    a: Seq<Seq<char>>,
    b: Seq<Seq<char>>,
    d: Seq<(Seq<char>, Seq<char>)>,
    py: Seq<char>,
    fls: Seq<Seq<char>>,
)
    ensures
        cjmain_all(a + b, d, py, fls) == cjmain_all(a, d, py, fls) + cjmain_all(b, d, py, fls),
        b.len() == 1 ==> cjmain_all(b, d, py, fls) == cj_main_part(kt::swapped_spell(d, b[0]), py, fls),
    decreases b.len(),
{
    if b.len() == 0 {
        assert(a + b =~= a);
        assert(cjmain_all(a, d, py, fls) + Seq::<Seq<char>>::empty() =~= cjmain_all(a, d, py, fls));
    } else {
        lemma_cjmain_all_joins(a, b.drop_last(), d, py, fls);
        assert((a + b).drop_last() =~= a + b.drop_last());
        assert((a + b).last() == b.last());
        let part = cj_main_part(kt::swapped_spell(d, b.last()), py, fls);
        assert(cjmain_all(a, d, py, fls) + cjmain_all(b.drop_last(), d, py, fls) + part
            =~= cjmain_all(a, d, py, fls) + (cjmain_all(b.drop_last(), d, py, fls) + part));
        if b.len() == 1 {
            assert(b.drop_last() =~= Seq::<Seq<char>>::empty());
            assert(Seq::<Seq<char>>::empty() + part =~= part);
        }
    }
}


/// The quick-scheme spells of strokes parts are those of each part, joined in
/// order: one part gives its `polymer` spells, and two runs of parts give the
/// spells of the first run followed by those of the second.
pub proof fn lemma_polymers_join(a: Seq<Seq<char>>, b: Seq<Seq<char>>, cj: Seq<char>, py: Seq<char>)
    ensures
        polymers(a + b, cj, py) == polymers(a, cj, py) + polymers(b, cj, py),
        b.len() == 1 ==> polymers(b, cj, py) == polymer(0, cj, b[0], py),
    decreases b.len(),
{
    if b.len() == 0 {
        assert(a + b =~= a);
        assert(polymers(a, cj, py) + Seq::<Seq<char>>::empty() =~= polymers(a, cj, py));
    } else {
        lemma_polymers_join(a, b.drop_last(), cj, py);
        assert((a + b).drop_last() =~= a + b.drop_last());
        assert((a + b).last() == b.last());
        let part = polymer(0, cj, b.last(), py);
        assert(polymers(a, cj, py) + polymers(b.drop_last(), cj, py) + part =~= polymers(a, cj, py) + (
        polymers(b.drop_last(), cj, py) + part));
        if b.len() == 1 {
            assert(b.drop_last() =~= Seq::<Seq<char>>::empty());
            assert(Seq::<Seq<char>>::empty() + part =~= part);
        }
    }
}

/// The composed-scheme spells of strokes parts are those of each part, joined
/// in order: one part gives the `polymer_by_lens` spells of its composed
/// strokes, and two runs of parts give the spells of the first run followed by
/// those of the second.
pub proof fn lemma_composed_polymers_join(
    a: Seq<Seq<char>>,
    b: Seq<Seq<char>>,
    lens: Seq<u32>,
    cj: Seq<char>,
    com: char,
    py: Seq<char>,
)
    ensures
        composed_polymers(a + b, lens, cj, com, py) == composed_polymers(a, lens, cj, com, py)
            + composed_polymers(b, lens, cj, com, py),
        b.len() == 1 ==> composed_polymers(b, lens, cj, com, py) == polymer_by_lens(
            lens,
            cj,
            composed_fix(b[0], com),
            py,
        ),
    decreases b.len(),
{
    if b.len() == 0 {
        assert(a + b =~= a);
        assert(composed_polymers(a, lens, cj, com, py) + Seq::<Seq<char>>::empty() =~= composed_polymers(
            a,
            lens,
            cj,
            com,
            py,
        ));
    } else {
        lemma_composed_polymers_join(a, b.drop_last(), lens, cj, com, py);
        assert((a + b).drop_last() =~= a + b.drop_last());
        assert((a + b).last() == b.last());
        let part = polymer_by_lens(lens, cj, composed_fix(b.last(), com), py);
        assert(composed_polymers(a, lens, cj, com, py) + composed_polymers(b.drop_last(), lens, cj, com, py)
            + part =~= composed_polymers(a, lens, cj, com, py) + (composed_polymers(
            b.drop_last(),
            lens,
            cj,
            com,
            py,
        ) + part));
        if b.len() == 1 {
            assert(b.drop_last() =~= Seq::<Seq<char>>::empty());
            assert(Seq::<Seq<char>>::empty() + part =~= part);
        }
    }
}

} // verus!
