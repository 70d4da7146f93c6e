//! Word dictionaries built from definition tables, and swap dictionaries.
use crate::dict::{self, find_key, group_insert, put_group};
use crate::parser::{
    self, StringStringsEntry, YongDef, read_line_cangjie_def, read_line_custom_add, read_line_xxyx_def,
    read_line_yong_def,
};
use crate::spell::{SpecifySpelling, WordSpellsLineFormat, YongSpelling};
use crate::text::{self, chars_of, is_whitespace, string_of};
use vstd::prelude::*;

verus! {

impl View for SpecifySpelling {
    type V = (YongSpelling, Seq<char>);

    open spec fn view(&self) -> (YongSpelling, Seq<char>) {
        (self.spelling, self.spell@)
    }
}

/// A swap dictionary: each key with the key that replaces it.
pub type SwapKeyDict = Vec<(String, String)>;

pub open spec fn sd_view(d: Seq<(String, String)>) -> Seq<(Seq<char>, Seq<char>)> {
    d.map_values(|e: (String, String)| (e.0@, e.1@))
}

/// The replacement of `key`: its entry's value, or the key itself.
pub open spec fn swapped_key(d: Seq<(Seq<char>, Seq<char>)>, key: Seq<char>) -> Seq<char> {
    match dict::lookup(d, key) {
        Some(v) => v,
        None => key,
    }
}

/// A spelling with each of its keys replaced.
pub open spec fn swapped_spell(d: Seq<(Seq<char>, Seq<char>)>, s: Seq<char>) -> Seq<char>
    decreases s.len(),
{
    if s.len() == 0 {
        seq![]
    } else {
        swapped_spell(d, s.drop_last()) + swapped_key(d, seq![s.last()])
    }
}

/// The replacement of `key` in the swap dictionary.
pub fn swap_key(key: String, dict: &SwapKeyDict) -> (r: String)
    ensures
        r@ == swapped_key(sd_view(dict@), key@),
{
    match find_key(dict, &key) {
        Some(i) => {
            proof {
                dict::lemma_key_pos(dict::kview(dict@), key@);
                lemma_sd_kview(dict@, key@);
            }
            dict[i].1.clone()
        },
        None => {
            proof {
                lemma_sd_kview(dict@, key@);
            }
            key
        },
    }
}

proof fn lemma_sd_kview(d: Seq<(String, String)>, k: Seq<char>)
    ensures
        dict::key_pos(dict::kview(d), k) == dict::key_pos(sd_view(d), k),
{
    dict::lemma_key_pos(dict::kview(d), k);
    dict::lemma_key_pos(sd_view(d), k);
    match dict::key_pos(dict::kview(d), k) {
        Some(i) => {
            assert forall|j: int| 0 <= j < i implies #[trigger] sd_view(d)[j].0 != k by {
                assert(sd_view(d)[j].0 == dict::kview(d)[j].0);
            }
            dict::lemma_key_pos_at(sd_view(d), k, i);
        },
        None => {
            assert forall|j: int| 0 <= j < d.len() implies #[trigger] sd_view(d)[j].0 != k by {
                assert(sd_view(d)[j].0 == dict::kview(d)[j].0);
            }
            dict::lemma_key_pos_none(sd_view(d), k);
        },
    }
}

/// A spelling with each of its keys replaced through the swap dictionary.
pub fn swap_spell(s: &Vec<char>, dict: &SwapKeyDict) -> (r: Vec<char>)
    ensures
        r@ == swapped_spell(sd_view(dict@), s@),
{
    let mut r: Vec<char> = Vec::new();
    let mut i: usize = 0;
    while i < s.len()
        invariant
            i <= s.len(),
            r@ == swapped_spell(sd_view(dict@), s@.take(i as int)),
        decreases s.len() - i,
    {
        proof {
            assert(s@.take(i + 1).drop_last() =~= s@.take(i as int));
        }
        let k = text::char_string(s[i]);
        let v = swap_key(k, dict);
        text::push_all(&mut r, &chars_of(v.as_str()));
        i = i + 1;
    }
    assert(s@.take(s.len() as int) =~= s@);
    r
}

/// Words with their spellings, each word once, in order of first appearance.
pub type YongDictWordSpells = Vec<(String, Vec<SpecifySpelling>)>;

#[derive(Debug)]
pub struct YongDefGroup {
    pub defs: Vec<YongDef>,
}

/// Each word of each definition with the definition's spell.
pub open spec fn def_pairs(defs: Seq<YongDef>, spelling: YongSpelling) -> Seq<
    (Seq<char>, (YongSpelling, Seq<char>)),
>
    decreases defs.len(),
{
    if defs.len() == 0 {
        seq![]
    } else {
        def_pairs(defs.drop_last(), spelling) + text::strs(defs.last().words@).map_values(
            |w: Seq<char>| (w, (spelling, defs.last().spell@)),
        )
    }
}

impl YongDefGroup {
    /// Each word of the definitions with the spells that define it, in order.
    pub fn to_dict(self, spelling: YongSpelling) -> (r: YongDictWordSpells)
        ensures
            dict::gview(r@) == dict::group_all(def_pairs(self.defs@, spelling)),
    {
        let defs = self.defs;
        let mut d: YongDictWordSpells = Vec::new();
        let mut i: usize = 0;
        while i < defs.len()
            invariant
                i <= defs.len(),
                dict::gview(d@) == dict::group_all(def_pairs(defs@.take(i as int), spelling)),
            decreases defs.len() - i,
        {
            let def = &defs[i];
            proof {
                assert(defs@.take(i + 1).drop_last() =~= defs@.take(i as int));
            }
            let ghost base = def_pairs(defs@.take(i as int), spelling);
            let ghost ws = text::strs(def.words@);
            let mut m: usize = 0;
            while m < def.words.len()
                invariant
                    m <= def.words.len(),
                    ws == text::strs(def.words@),
                    dict::gview(d@) == dict::group_all(
                        base + ws.take(m as int).map_values(
                            |w: Seq<char>| (w, (spelling, def.spell@)),
                        ),
                    ),
                decreases def.words.len() - m,
            {
                proof {
                    let f = |w: Seq<char>| (w, (spelling, def.spell@));
                    let a = base + ws.take(m + 1).map_values(f);
                    assert(a.drop_last() =~= base + ws.take(m as int).map_values(f));
                    assert(a.last() == (def.words@[m as int]@, (spelling, def.spell@)));
                }
                let ss = SpecifySpelling { spell: def.spell.clone(), spelling };
                group_insert(&mut d, def.words[m].clone(), ss);
                m = m + 1;
            }
            proof {
                assert(ws.take(ws.len() as int) =~= ws);
            }
            i = i + 1;
        }
        proof {
            assert(defs@.take(defs.len() as int) =~= defs@);
        }
        d
    }
}

/// Whether path `p` starts with the path `base`, component by component, as
/// `std::path::Path::starts_with` tells.
pub uninterp spec fn path_starts_with(p: Seq<char>, base: Seq<char>) -> bool;

/// The last component of path `p` as `std::path::Path::file_name` gives it.
pub uninterp spec fn path_file_name(p: Seq<char>) -> Option<Seq<char>>;

/// Calls `std::path::Path::starts_with` on the path `p` with the path `base`.
/// Stated: the result is the named component-wise prefix test of the two paths.
#[verifier::external_body]
fn std_path_starts_with(p: &str, base: &str) -> (r: bool)
    ensures
        r == path_starts_with(p@, base@),
{
    std::path::Path::new(p).starts_with(base)
}

/// Calls `std::path::Path::file_name` on the path `p`, and `OsStr::to_str` on
/// the name. Stated: the result is the named last component of the path.
#[verifier::external_body]
fn std_path_file_name(p: &str) -> (r: Option<String>)
    ensures
        match r {
            Some(n) => path_file_name(p@) == Some(n@),
            None => path_file_name(p@) is None,
        },
{
    match std::path::Path::new(p).file_name() {
        Some(n) => match n.to_str() {
            Some(s) => Some(s.to_string()),
            None => None,
        },
        None => None,
    }
}

pub open spec fn str_starts_with(s: Seq<char>, pat: Seq<char>) -> bool {
    pat.len() <= s.len() && s.take(pat.len() as int) == pat
}

pub fn starts_with_chars(s: &Vec<char>, pat: &Vec<char>) -> (r: bool)
    ensures
        r == str_starts_with(s@, pat@),
{
    if pat.len() > s.len() {
        return false;
    }
    let mut i: usize = 0;
    while i < pat.len()
        invariant
            pat.len() <= s.len(),
            i <= pat.len(),
            forall|j: int| 0 <= j < i ==> s@[j] == pat@[j],
        decreases pat.len() - i,
    {
        if s[i] != pat[i] {
            return false;
        }
        i = i + 1;
    }
    assert(s@.take(pat.len() as int) =~= pat@);
    true
}

/// The path starts with the component `pat`, or its file name starts with `pat`.
pub fn path_file_or_dict_prefix_match(path: &str, pat: &str) -> (r: bool)
    ensures
        r == (path_starts_with(path@, pat@) || match path_file_name(path@) {
            Some(n) => str_starts_with(n, pat@),
            None => false,
        }),
{
    if std_path_starts_with(path, pat) {
        return true;
    }
    match std_path_file_name(path) {
        Some(n) => starts_with_chars(&chars_of(n.as_str()), &chars_of(pat)),
        None => false,
    }
}

/// Number of trailing whitespace characters.
pub open spec fn trailing_ws(s: Seq<char>) -> nat
    decreases s.len(),
{
    if s.len() > 0 && text::is_ws(s.last()) {
        1 + trailing_ws(s.drop_last())
    } else {
        0
    }
}

/// `str::trim_end`.
pub open spec fn trim_end(s: Seq<char>) -> Seq<char> {
    s.take(s.len() - trailing_ws(s))
}

proof fn lemma_trailing_ws_le(s: Seq<char>)
    ensures
        trailing_ws(s) <= s.len(),
    decreases s.len(),
{
    if s.len() > 0 {
        lemma_trailing_ws_le(s.drop_last());
    }
}

pub fn trim_end_chars(s: &Vec<char>) -> (r: Vec<char>)
    ensures
        r@ == trim_end(s@),
{
    let mut n = s.len();
    assert(s@.take(s.len() as int) =~= s@);
    while n > 0 && is_whitespace(s[n - 1])
        invariant
            n <= s.len(),
            trailing_ws(s@) == (s.len() - n) + trailing_ws(s@.take(n as int)),
        decreases n,
    {
        assert(s@.take(n as int).drop_last() =~= s@.take(n - 1));
        n = n - 1;
    }
    let mut r: Vec<char> = Vec::new();
    let mut i: usize = 0;
    while i < n
        invariant
            n <= s.len(),
            i <= n,
            r@ == s@.take(i as int),
        decreases n - i,
    {
        r.push(s[i]);
        i = i + 1;
        assert(r@ =~= s@.take(i as int));
    }
    r
}

/// `str::trim`: without leading and trailing whitespace.
pub open spec fn trim(s: Seq<char>) -> Seq<char> {
    trim_end(text::trim_start(s))
}

pub fn trim_chars(s: &Vec<char>) -> (r: Vec<char>)
    ensures
        r@ == trim(s@),
{
    let t = text::trim_start_chars(s);
    trim_end_chars(&t)
}

/// The lines after the first line that reads `[DATA]` (before trailing
/// whitespace); all lines when there is none.
pub open spec fn after_data_mark(lines: Seq<Seq<char>>) -> Seq<Seq<char>>
    decreases lines.len(),
{
    if lines.len() == 0 {
        seq![]
    } else if trim_end(lines[0]) == "[DATA]"@ {
        lines.skip(1)
    } else {
        after_data_mark(lines.skip(1))
    }
}

/// The definition part of a table: the lines after its `[DATA]` line.
pub fn yong_def_part(lines: &Vec<String>) -> (r: Vec<String>)
    ensures
        text::strs(r@) == after_data_mark(text::strs(lines@)),
{
    let ghost ls = text::strs(lines@);
    let mark = chars_of("[DATA]");
    let mut i: usize = 0;
    assert(ls.skip(0) =~= ls);
    while i < lines.len()
        invariant
            i <= lines.len(),
            ls == text::strs(lines@),
            mark@ == "[DATA]"@,
            after_data_mark(ls) == after_data_mark(ls.skip(i as int)),
        decreases lines.len() - i,
    {
        let t = trim_end_chars(&chars_of(lines[i].as_str()));
        assert(ls.skip(i as int)[0] == lines@[i as int]@);
        if crate::spell::vec_eq(&t, &mark) {
            let mut r: Vec<String> = Vec::new();
            let mut j = i + 1;
            while j < lines.len()
                invariant
                    i < j <= lines.len(),
                    ls == text::strs(lines@),
                    text::strs(r@) == ls.subrange(i + 1, j as int),
                decreases lines.len() - j,
            {
                let ghost before = text::strs(r@);
                let x = lines[j].clone();
                r.push(x);
                assert(text::strs(r@) =~= before.push(x@));
                j = j + 1;
                assert(text::strs(r@) =~= ls.subrange(i + 1, j as int));
            }
            assert(ls.skip(i as int).skip(1) =~= ls.subrange(i + 1, lines.len() as int));
            return r;
        }
        assert(ls.skip(i as int).skip(1) =~= ls.skip(i + 1));
        i = i + 1;
    }
    Vec::new()
}

/// The spelling scheme of a table, told by its path: `xxyx`, then `cj`.
pub open spec fn spelling_of_path(path: Seq<char>) -> YongSpelling {
    let is = |pat: Seq<char>|
        path_starts_with(path, pat) || match path_file_name(path) {
            Some(n) => str_starts_with(n, pat),
            None => false,
        };
    if is("xxyx"@) {
        YongSpelling::Xxyx
    } else if is("cj"@) {
        YongSpelling::Cangjie
    } else {
        YongSpelling::Free
    }
}

/// The definitions of the lines, read by the parser of the spelling scheme.
pub open spec fn defs_of(lines: Seq<Seq<char>>, spelling: YongSpelling) -> Seq<
    (Seq<char>, Seq<Seq<char>>),
>
    decreases lines.len(),
{
    if lines.len() == 0 {
        seq![]
    } else {
        let l = lines.last();
        let d = match spelling {
            YongSpelling::Cangjie => parser::def_line(
                l,
                parser::run_head(l, text::CharClass::AsciiAlpha),
            ),
            YongSpelling::Xxyx => parser::def_line(l, parser::xxyx_head(l)),
            YongSpelling::Free => parser::def_line(
                l,
                parser::run_head(l, text::CharClass::SpellMark),
            ),
        };
        match d {
            Some(x) => defs_of(lines.drop_last(), spelling).push(x),
            None => defs_of(lines.drop_last(), spelling),
        }
    }
}

pub open spec fn defs_view(defs: Seq<YongDef>) -> Seq<(Seq<char>, Seq<Seq<char>>)> {
    defs.map_values(|d: YongDef| (d.spell@, text::strs(d.words@)))
}

/// Reads the definitions of the lines with the parser of the scheme.
pub fn collect_yong_defs(lines: &Vec<String>, spelling: YongSpelling) -> (r: Vec<YongDef>)
    ensures
        defs_view(r@) == defs_of(text::strs(lines@), spelling),
{
    let mut r: Vec<YongDef> = Vec::new();
    let mut i: usize = 0;
    while i < lines.len()
        invariant
            i <= lines.len(),
            defs_view(r@) == defs_of(text::strs(lines@).take(i as int), spelling),
        decreases lines.len() - i,
    {
        proof {
            assert(text::strs(lines@).take(i + 1).drop_last() =~= text::strs(lines@).take(
                i as int,
            ));
            assert(text::strs(lines@).take(i + 1).last() == lines@[i as int]@);
        }
        let l = lines[i].clone();
        let d = match spelling {
            YongSpelling::Cangjie => read_line_cangjie_def(l),
            YongSpelling::Xxyx => read_line_xxyx_def(l),
            YongSpelling::Free => read_line_yong_def(l),
        };
        match d {
            Some(x) => {
                let ghost before = defs_view(r@);
                r.push(x);
                assert(defs_view(r@) =~= before.push((x.spell@, text::strs(x.words@))));
            },
            None => {},
        }
        i = i + 1;
    }
    assert(text::strs(lines@).take(lines.len() as int) =~= text::strs(lines@));
    r
}

/// The word dictionary of a definition table, from the table's path (which
/// tells the spelling scheme) and its lines.
pub fn to_yong_dict(path: &str, lines: &Vec<String>) -> (r: YongDictWordSpells)
    ensures
        ({
            let s = spelling_of_path(path@);
            let defs = defs_of(after_data_mark(text::strs(lines@)), s);
            dict::gview(r@) == dict::group_all(
                defs_pairs_view(defs, s),
            )
        }),
{
    let spelling = if path_file_or_dict_prefix_match(path, "xxyx") {
        YongSpelling::Xxyx
    } else if path_file_or_dict_prefix_match(path, "cj") {
        YongSpelling::Cangjie
    } else {
        YongSpelling::Free
    };
    let part = yong_def_part(lines);
    let defs = collect_yong_defs(&part, spelling);
    proof {
        lemma_def_pairs_view(defs@, spelling);
    }
    YongDefGroup { defs }.to_dict(spelling)
}

/// Each word of each viewed definition with the definition's spell.
pub open spec fn defs_pairs_view(defs: Seq<(Seq<char>, Seq<Seq<char>>)>, spelling: YongSpelling) -> Seq<
    (Seq<char>, (YongSpelling, Seq<char>)),
>
    decreases defs.len(),
{
    if defs.len() == 0 {
        seq![]
    } else {
        defs_pairs_view(defs.drop_last(), spelling) + defs.last().1.map_values(
            |w: Seq<char>| (w, (spelling, defs.last().0)),
        )
    }
}

proof fn lemma_def_pairs_view(defs: Seq<YongDef>, spelling: YongSpelling)
    ensures
        def_pairs(defs, spelling) == defs_pairs_view(defs_view(defs), spelling),
    decreases defs.len(),
{
    if defs.len() > 0 {
        lemma_def_pairs_view(defs.drop_last(), spelling);
        assert(defs_view(defs.drop_last()) =~= defs_view(defs).drop_last());
    }
}


/// The word entries of the lines of a word-spells table, in order.
pub open spec fn custom_entries(lines: Seq<Seq<char>>) -> Seq<(Seq<char>, Seq<Seq<char>>)>
    decreases lines.len(),
{
    if lines.len() == 0 {
        seq![]
    } else {
        custom_entries(lines.drop_last()) + match parser::custom_add(lines.last()) {
            Some(e) => seq![e],
            None => Seq::<(Seq<char>, Seq<Seq<char>>)>::empty(),
        }
    }
}

/// The entries of the lines of a word-spells table (each format reads its
/// lines as custom additions).
pub fn collect_word_spells(lines: &Vec<String>, format: WordSpellsLineFormat) -> (r: Vec<
    StringStringsEntry,
>)
    ensures
        parser::entries_view(r@) == custom_entries(text::strs(lines@)),
{
    let ghost lv = text::strs(lines@);
    let mut r: Vec<StringStringsEntry> = Vec::new();
    let mut i: usize = 0;
    while i < lines.len()
        invariant
            i <= lines.len(),
            lv == text::strs(lines@),
            parser::entries_view(r@) == custom_entries(lv.take(i as int)),
        decreases lines.len() - i,
    {
        proof {
            assert(lv.take(i + 1).drop_last() =~= lv.take(i as int));
        }
        let e = match format {
            WordSpellsLineFormat::AddShorter => read_line_custom_add(lines[i].clone()),
            WordSpellsLineFormat::Free => read_line_custom_add(lines[i].clone()),
        };
        let ghost r0 = parser::entries_view(r@);
        match e {
            Some(x) => {
                let ghost xv = (x.0@, text::strs(x.1@));
                assert(parser::entry_view(Some(x)) == Some(xv));
                r.push(x);
                assert(parser::entries_view(r@) =~= r0.push(xv));
            },
            None => {},
        }
        i = i + 1;
        assert(parser::entries_view(r@) =~= custom_entries(lv.take(i as int)));
    }
    assert(lv.take(lines.len() as int) =~= lv);
    r
}

/// Each spell of an entry as a free spelling.
pub open spec fn free_spellings(spells: Seq<Seq<char>>) -> Seq<(YongSpelling, Seq<char>)> {
    spells.map_values(|s: Seq<char>| (YongSpelling::Free, s))
}

/// The dictionary of a word-spells table: each word with its spells as free
/// spellings; a later line of a word replaces an earlier one.
pub open spec fn word_spells_dict(lines: Seq<Seq<char>>) -> Seq<(Seq<char>, Seq<(YongSpelling, Seq<char>)>)> {
    dict::put_all(
        custom_entries(lines).map_values(
            |e: (Seq<char>, Seq<Seq<char>>)| (e.0, free_spellings(e.1)),
        ),
    )
}

/// Reads a word-spells table: its format by its path (`add-short` tables add
/// shorter spells), its entries as free spellings.
pub fn from_word_spells_dict(path: &str, lines: &Vec<String>) -> (r: YongDictWordSpells)
    ensures
        dict::gview(r@) == word_spells_dict(text::strs(lines@)),
{
    let format = if path_file_or_dict_prefix_match(path, "add-short") {
        WordSpellsLineFormat::AddShorter
    } else {
        WordSpellsLineFormat::Free
    };
    let defs = collect_word_spells(lines, format);
    let ghost dv = parser::entries_view(defs@);
    let ghost f = |e: (Seq<char>, Seq<Seq<char>>)| (e.0, free_spellings(e.1));
    let mut r: YongDictWordSpells = Vec::new();
    let mut i: usize = 0;
    while i < defs.len()
        invariant
            i <= defs.len(),
            dv == parser::entries_view(defs@),
            f == (|e: (Seq<char>, Seq<Seq<char>>)| (e.0, free_spellings(e.1))),
            dict::gview(r@) == dict::put_all(dv.take(i as int).map_values(f)),
        decreases defs.len() - i,
    {
        proof {
            assert(dv.take(i + 1).map_values(f).drop_last() =~= dv.take(i as int).map_values(f));
        }
        let word = defs[i].0.clone();
        let spells = &defs[i].1;
        let mut ss: Vec<SpecifySpelling> = Vec::new();
        let mut k: usize = 0;
        while k < spells.len()
            invariant
                k <= spells.len(),
                ss@.map_values(|x: SpecifySpelling| x@) == free_spellings(
                    text::strs(spells@).take(k as int),
                ),
            decreases spells.len() - k,
        {
            let ghost s0 = ss@.map_values(|x: SpecifySpelling| x@);
            ss.push(SpecifySpelling { spelling: YongSpelling::Free, spell: spells[k].clone() });
            assert(ss@.map_values(|x: SpecifySpelling| x@) =~= s0.push(
                (YongSpelling::Free, spells@[k as int]@),
            ));
            k = k + 1;
            assert(free_spellings(text::strs(spells@).take(k as int)) =~= s0.push(
                (YongSpelling::Free, spells@[k - 1]@),
            ));
        }
        assert(text::strs(spells@).take(spells.len() as int) =~= text::strs(spells@));
        assert(dv[i as int] == (word@, text::strs(spells@)));
        put_group(&mut r, word, ss);
        i = i + 1;
    }
    assert(dv.take(defs.len() as int) =~= dv);
    assert(custom_entries(text::strs(lines@)).map_values(f) =~= dv.map_values(f));
    r
}


/// The entries of a swap file: of each line of at least two words, the first
/// two as key and replacement.
pub open spec fn swap_lines(ls: Seq<Seq<char>>) -> Seq<(Seq<char>, Seq<char>)>
    decreases ls.len(),
{
    if ls.len() == 0 {
        seq![]
    } else {
        let ws = text::tokens(ls.last(), text::CharClass::Whitespace);
        swap_lines(ls.drop_last()) + if ws.len() >= 2 {
            seq![(ws[0], ws[1])]
        } else {
            Seq::<(Seq<char>, Seq<char>)>::empty()
        }
    }
}

/// Reads a swap dictionary from the lines of a swap file; a later line of a
/// key replaces an earlier one.
pub fn to_swap_key_dict(lines: &Vec<String>) -> (r: SwapKeyDict)
    ensures
        sd_view(r@) == dict::put_all(swap_lines(text::strs(lines@))),
{
    let ghost lv = text::strs(lines@);
    let mut r: SwapKeyDict = Vec::new();
    let mut i: usize = 0;
    while i < lines.len()
        invariant
            i <= lines.len(),
            lv == text::strs(lines@),
            dict::vview(r@) == dict::put_all(swap_lines(lv.take(i as int))),
        decreases lines.len() - i,
    {
        proof {
            assert(lv.take(i + 1).drop_last() =~= lv.take(i as int));
        }
        let ws = text::split_tokens(&chars_of(lines[i].as_str()), &text::CharClass::Whitespace);
        if ws.len() >= 2 {
            proof {
                text::lemma_chars_deep_view(&ws@[0]);
                text::lemma_chars_deep_view(&ws@[1]);
                assert(ws.deep_view()[0] == ws@[0].deep_view());
                assert(ws.deep_view()[1] == ws@[1].deep_view());
            }
            let ghost e = (ws@[0]@, ws@[1]@);
            dict::put_entry(&mut r, string_of(&ws[0]), string_of(&ws[1]));
            assert(swap_lines(lv.take(i + 1)) =~= swap_lines(lv.take(i as int)).push(e));
            assert(swap_lines(lv.take(i + 1)).drop_last() =~= swap_lines(lv.take(i as int)));
        } else {
            assert(swap_lines(lv.take(i + 1)) =~= swap_lines(lv.take(i as int)));
        }
        i = i + 1;
    }
    assert(lv.take(lines.len() as int) =~= lv);
    assert(sd_view(r@) =~= dict::vview(r@));
    r
}

/// The spellings without repeats, each at its first place.
pub open spec fn dedup_spellings(s: Seq<(YongSpelling, Seq<char>)>) -> Seq<(YongSpelling, Seq<char>)>
    decreases s.len(),
{
    if s.len() == 0 {
        seq![]
    } else {
        let d = dedup_spellings(s.drop_last());
        if d.contains(s.last()) {
            d
        } else {
            d.push(s.last())
        }
    }
}

fn same_spelling(a: &SpecifySpelling, b: &SpecifySpelling) -> (r: bool)
    ensures
        r == (a@ == b@),
{
    a.spelling == b.spelling && a.spell == b.spell
}

/// The dictionary with each word's spellings without repeats.
pub fn dedup_word_spells(d: YongDictWordSpells) -> (r: YongDictWordSpells)
    ensures
        dict::gview(r@) == dict::gview(d@).map_values(
            |e: (Seq<char>, Seq<(YongSpelling, Seq<char>)>)| (e.0, dedup_spellings(e.1)),
        ),
{
    let ghost f = |e: (Seq<char>, Seq<(YongSpelling, Seq<char>)>)| (e.0, dedup_spellings(e.1));
    let ghost dv = dict::gview(d@);
    let mut r: YongDictWordSpells = Vec::new();
    let mut i: usize = 0;
    while i < d.len()
        invariant
            i <= d.len(),
            dv == dict::gview(d@),
            f == (|e: (Seq<char>, Seq<(YongSpelling, Seq<char>)>)| (e.0, dedup_spellings(e.1))),
            dict::gview(r@) == dv.take(i as int).map_values(f),
        decreases d.len() - i,
    {
        let spells = &d[i].1;
        let ghost sv = spells@.map_values(|x: SpecifySpelling| x@);
        let mut kept: Vec<SpecifySpelling> = Vec::new();
        let mut k: usize = 0;
        while k < spells.len()
            invariant
                k <= spells.len(),
                sv == spells@.map_values(|x: SpecifySpelling| x@),
                kept@.map_values(|x: SpecifySpelling| x@) == dedup_spellings(sv.take(k as int)),
            decreases spells.len() - k,
        {
            proof {
                assert(sv.take(k + 1).drop_last() =~= sv.take(k as int));
            }
            let ghost kv = kept@.map_values(|x: SpecifySpelling| x@);
            let mut found = false;
            let mut q: usize = 0;
            while q < kept.len()
                invariant
                    q <= kept.len(),
                    k < spells.len(),
                    kv == kept@.map_values(|x: SpecifySpelling| x@),
                    found == exists|j: int| 0 <= j < q && #[trigger] kv[j] == spells@[k as int]@,
                decreases kept.len() - q,
            {
                assert(kv[q as int] == kept@[q as int]@);
                if same_spelling(&kept[q], &spells[k]) {
                    found = true;
                }
                q = q + 1;
            }
            proof {
                if found {
                    let j = choose|j: int| 0 <= j < q && #[trigger] kv[j] == spells@[k as int]@;
                    assert(kv.contains(sv[k as int]));
                } else {
                    assert(!kv.contains(sv[k as int]));
                }
            }
            if !found {
                let c = SpecifySpelling { spelling: spells[k].spelling, spell: spells[k].spell.clone() };
                kept.push(c);
                assert(kept@.map_values(|x: SpecifySpelling| x@) =~= kv.push(sv[k as int]));
            }
            k = k + 1;
        }
        assert(sv.take(spells.len() as int) =~= sv);
        let ghost r0 = dict::gview(r@);
        let w = d[i].0.clone();
        r.push((w, kept));
        assert(dict::gview(r@) =~= r0.push(f(dv[i as int])));
        i = i + 1;
        assert(dv.take(i as int).map_values(f) =~= r0.push(f(dv[i - 1])));
    }
    assert(dv.take(d.len() as int) =~= dv);
    r
}


/// Each spelling of each word of the dictionaries, with its word, in order.
pub open spec fn all_word_spellings(ds: Seq<Seq<(Seq<char>, Seq<(YongSpelling, Seq<char>)>)>>) -> Seq<
    (Seq<char>, (YongSpelling, Seq<char>)),
>
    decreases ds.len(),
{
    if ds.len() == 0 {
        seq![]
    } else {
        all_word_spellings(ds.drop_last()) + dict_spellings(ds.last())
    }
}

pub open spec fn dict_spellings(d: Seq<(Seq<char>, Seq<(YongSpelling, Seq<char>)>)>) -> Seq<
    (Seq<char>, (YongSpelling, Seq<char>)),
>
    decreases d.len(),
{
    if d.len() == 0 {
        seq![]
    } else {
        dict_spellings(d.drop_last()) + d.last().1.map_values(
            |x: (YongSpelling, Seq<char>)| (d.last().0, x),
        )
    }
}

/// The dictionaries merged: each word with all its spellings, the words in
/// order of first appearance.
pub fn get_yongdictwordspells(dicts: Vec<YongDictWordSpells>) -> (r: YongDictWordSpells)
    ensures
        dict::gview(r@) == dict::group_all(
            all_word_spellings(dicts@.map_values(|d: YongDictWordSpells| dict::gview(d@))),
        ),
{
    let ghost dv = dicts@.map_values(|d: YongDictWordSpells| dict::gview(d@));
    let mut r: YongDictWordSpells = Vec::new();
    let mut i: usize = 0;
    while i < dicts.len()
        invariant
            i <= dicts.len(),
            dv == dicts@.map_values(|d: YongDictWordSpells| dict::gview(d@)),
            dict::gview(r@) == dict::group_all(all_word_spellings(dv.take(i as int))),
        decreases dicts.len() - i,
    {
        proof {
            assert(dv.take(i + 1).drop_last() =~= dv.take(i as int));
        }
        let d = &dicts[i];
        let ghost base = all_word_spellings(dv.take(i as int));
        let ghost g = dv[i as int];
        let mut j: usize = 0;
        while j < d.len()
            invariant
                j <= d.len(),
                g == dict::gview(d@),
                dict::gview(r@) == dict::group_all(base + dict_spellings(g.take(j as int))),
            decreases d.len() - j,
        {
            proof {
                assert(g.take(j + 1).drop_last() =~= g.take(j as int));
            }
            let ghost mid = base + dict_spellings(g.take(j as int));
            let w = &d[j].0;
            let ss = &d[j].1;
            let ghost sv = ss@.map_values(|x: SpecifySpelling| x@);
            assert(g[j as int] == (w@, sv));
            let mut k: usize = 0;
            while k < ss.len()
                invariant
                    k <= ss.len(),
                    sv == ss@.map_values(|x: SpecifySpelling| x@),
                    dict::gview(r@) == dict::group_all(
                        mid + sv.take(k as int).map_values(
                            |x: (YongSpelling, Seq<char>)| (w@, x),
                        ),
                    ),
                decreases ss.len() - k,
            {
                proof {
                    let f = |x: (YongSpelling, Seq<char>)| (w@, x);
                    let a = mid + sv.take(k + 1).map_values(f);
                    assert(a.drop_last() =~= mid + sv.take(k as int).map_values(f));
                    assert(a.last() == (w@, ss@[k as int]@));
                }
                let c = SpecifySpelling { spelling: ss[k].spelling, spell: ss[k].spell.clone() };
                group_insert(&mut r, w.clone(), c);
                k = k + 1;
            }
            proof {
                let f = |x: (YongSpelling, Seq<char>)| (w@, x);
                assert(sv.take(ss.len() as int) =~= sv);
                assert(base + dict_spellings(g.take(j + 1)) =~= mid + sv.map_values(f));
            }
            j = j + 1;
        }
        assert(g.take(d.len() as int) =~= g);
        i = i + 1;
    }
    assert(dv.take(dicts.len() as int) =~= dv);
    r
}

} // verus!
