//! Parsers for the lines of the dictionary, spelling and swap tables.
//!
//! A definition line is a head (a spelling or a single character), a run of
//! spaces or tabs, and a list of words separated by runs of spaces, tabs,
//! carriage returns or line feeds.
use crate::text::{self, CharClass, chars_of, in_class, is_alpha, run_from, split_tokens, string_of, strings_of};
use vstd::prelude::*;

verus! {

#[derive(Debug)]
pub struct AlphaEntry {
    pub key: char,
    pub value: String,
}

#[derive(Debug, Clone)]
pub struct YongDef {
    pub spell: String,
    pub words: Vec<String>,
}

pub type StringStringsEntry = (String, Vec<String>);

/// The word list that starts a text: `None` when it does not start with a word.
pub open spec fn sep_list(s: Seq<char>) -> Option<Seq<Seq<char>>> {
    if s.len() == 0 || !text::class_has(CharClass::NonSpace, s[0]) {
        None
    } else {
        Some(text::tokens(s, CharClass::MultiSpace))
    }
}

/// A definition line whose head is its first `head` characters: the head,
/// then at least one space or tab, then a word list.
pub open spec fn def_line(s: Seq<char>, head: Option<nat>) -> Option<(Seq<char>, Seq<Seq<char>>)> {
    match head {
        None => None,
        Some(a) => {
            let b = text::run_len(s.skip(a as int), CharClass::SpaceTab);
            if b == 0 {
                None
            } else {
                match sep_list(s.skip((a + b) as int)) {
                    Some(ws) => Some((s.take(a as int), ws)),
                    None => None,
                }
            }
        },
    }
}

/// A non-empty maximal run of class `k` at the start of `s`.
pub open spec fn run_head(s: Seq<char>, k: CharClass) -> Option<nat> {
    let a = text::run_len(s, k);
    if a == 0 {
        None
    } else {
        Some(a)
    }
}

pub open spec fn is_vowel_c(c: char) -> bool {
    c == 'a' || c == 'e' || c == 'u' || c == 'i' || c == 'o'
}

pub open spec fn is_consonant_c(c: char) -> bool {
    text::is_ascii_alpha(c) && !is_vowel_c(c)
}

/// An xxyx spelling: a consonant alone, or a consonant, a letter other than
/// `z`, and vowels only; taken from the maximal run of ASCII letters.
pub open spec fn xxyx_head(s: Seq<char>) -> Option<nat> {
    let a = text::run_len(s, CharClass::AsciiAlpha);
    if a == 0 || !is_consonant_c(s[0]) {
        None
    } else if a == 1 {
        Some(1)
    } else if s[1] == 'z' {
        None
    } else if forall|j: int| 2 <= j < a ==> is_vowel_c(#[trigger] s[j]) {
        Some(a)
    } else {
        None
    }
}

pub open spec fn def_view(d: Option<YongDef>) -> Option<(Seq<char>, Seq<Seq<char>>)> {
    match d {
        Some(d) => Some((d.spell@, text::strs(d.words@))),
        None => None,
    }
}

pub open spec fn entries_view(v: Seq<StringStringsEntry>) -> Seq<(Seq<char>, Seq<Seq<char>>)> {
    v.map_values(|e: StringStringsEntry| (e.0@, text::strs(e.1@)))
}

pub open spec fn entry_view(d: Option<StringStringsEntry>) -> Option<(Seq<char>, Seq<Seq<char>>)> {
    match d {
        Some(d) => Some((d.0@, text::strs(d.1@))),
        None => None,
    }
}

/// The word list at index `start`.
fn separated_list_by_space(s: &Vec<char>, start: usize) -> (r: Option<Vec<Vec<char>>>)
    requires
        start <= s.len(),
    ensures
        match r {
            Some(v) => sep_list(s@.skip(start as int)) == Some(v.deep_view()),
            None => sep_list(s@.skip(start as int)) is None,
        },
{
    if start >= s.len() || !in_class(&CharClass::NonSpace, s[start]) {
        return None;
    }
    let mut rest: Vec<char> = Vec::new();
    let mut i = start;
    while i < s.len()
        invariant
            start <= i <= s.len(),
            rest@ == s@.subrange(start as int, i as int),
        decreases s.len() - i,
    {
        rest.push(s[i]);
        i = i + 1;
        assert(rest@ =~= s@.subrange(start as int, i as int));
    }
    assert(rest@ =~= s@.skip(start as int));
    Some(split_tokens(&rest, &CharClass::MultiSpace))
}

/// Number of spaces and tabs at index `start`, where there is at least one.
fn spaces(s: &Vec<char>, start: usize) -> (r: Option<usize>)
    requires
        start <= s.len(),
    ensures
        r matches Some(n) ==> n == text::run_len(s@.skip(start as int), CharClass::SpaceTab) && n
            > 0 && start + n <= s.len(),
        r is None ==> text::run_len(s@.skip(start as int), CharClass::SpaceTab) == 0,
{
    let n = run_from(s, start, &CharClass::SpaceTab);
    if n == 0 {
        None
    } else {
        Some(n)
    }
}

/// Length of the maximal run of class `k` at the start, where it is not empty.
fn head_run(s: &Vec<char>, k: &CharClass) -> (r: Option<usize>)
    ensures
        match r {
            Some(n) => run_head(s@, *k) == Some(n as nat) && n <= s.len(),
            None => run_head(s@, *k) is None,
        },
{
    assert(s@.skip(0) =~= s@);
    let n = run_from(s, 0, k);
    if n == 0 {
        None
    } else {
        Some(n)
    }
}

fn prefix(s: &Vec<char>, a: usize) -> (r: Vec<char>)
    requires
        a <= s.len(),
    ensures
        r@ == s@.take(a as int),
{
    let mut r: Vec<char> = Vec::new();
    let mut i: usize = 0;
    while i < a
        invariant
            a <= s.len(),
            i <= a,
            r@ == s@.take(i as int),
        decreases a - i,
    {
        r.push(s[i]);
        i = i + 1;
        assert(r@ =~= s@.take(i as int));
    }
    r
}

/// A definition line with a head of `a` characters.
fn read_def(s: &Vec<char>, a: usize) -> (r: Option<(Vec<char>, Vec<Vec<char>>)>)
    requires
        a <= s.len(),
    ensures
        match r {
            Some((h, ws)) => def_line(s@, Some(a as nat)) == Some((h@, ws.deep_view())),
            None => def_line(s@, Some(a as nat)) is None,
        },
{
    let b = match spaces(s, a) {
        Some(b) => b,
        None => return None,
    };
    assert(s@.skip(a as int).skip(b as int) =~= s@.skip(a + b));
    assert(b == text::run_len(s@.skip(a as int), CharClass::SpaceTab));
    match separated_list_by_space(s, a + b) {
        Some(ws) => {
            let h = prefix(s, a);
            assert(def_line(s@, Some(a as nat)) == Some((h@, ws.deep_view())));
            Some((h, ws))
        },
        None => None,
    }
}

fn to_yong_def(r: Option<(Vec<char>, Vec<Vec<char>>)>) -> (d: Option<YongDef>)
    ensures
        def_view(d) == match r {
            Some((h, ws)) => Some((h@, ws.deep_view())),
            None => None,
        },
{
    match r {
        Some((h, ws)) => Some(YongDef { spell: string_of(&h), words: strings_of(&ws) }),
        None => None,
    }
}

/// A letter key, spaces or tabs, and the rest of the line as its value.
pub fn read_line_alpha_entry(line: String) -> (r: Option<AlphaEntry>)
    ensures
        match r {
            Some(e) => {
                &&& line@.len() > 0
                &&& 'a' <= line@[0] <= 'z'
                &&& text::run_len(line@.skip(1), CharClass::SpaceTab) > 0
                &&& e.key == line@[0]
                &&& e.value@ == line@.skip((1 + text::run_len(line@.skip(1), CharClass::SpaceTab)) as int)
            },
            None => !(line@.len() > 0 && 'a' <= line@[0] <= 'z' && text::run_len(
                line@.skip(1),
                CharClass::SpaceTab,
            ) > 0),
        },
{
    let s = chars_of(line.as_str());
    if s.len() == 0 || !('a' <= s[0] && s[0] <= 'z') {
        return None;
    }
    let n = match spaces(&s, 1) {
        Some(n) => n,
        None => return None,
    };
    let mut v: Vec<char> = Vec::new();
    let mut i = 1 + n;
    while i < s.len()
        invariant
            1 + n <= i <= s.len(),
            v@ == s@.subrange(1 + n, i as int),
        decreases s.len() - i,
    {
        v.push(s[i]);
        i = i + 1;
        assert(v@ =~= s@.subrange(1 + n, i as int));
    }
    assert(v@ =~= s@.skip(1 + n));
    assert(n == text::run_len(line@.skip(1), CharClass::SpaceTab));
    Some(AlphaEntry { key: s[0], value: string_of(&v) })
}

/// A definition line headed by a spelling of letters and the marks `+ . , ; ^ ' -`.
pub fn read_line_yong_def(line: String) -> (r: Option<YongDef>)
    ensures
        def_view(r) == def_line(line@, run_head(line@, CharClass::SpellMark)),
{
    let s = chars_of(line.as_str());
    match head_run(&s, &CharClass::SpellMark) {
        Some(a) => to_yong_def(read_def(&s, a)),
        None => None,
    }
}

fn xxyx_spell(s: &Vec<char>) -> (r: Option<usize>)
    ensures
        match r {
            Some(n) => xxyx_head(s@) == Some(n as nat) && n <= s.len(),
            None => xxyx_head(s@) is None,
        },
{
    let a = match head_run(s, &CharClass::AsciiAlpha) {
        Some(a) => a,
        None => return None,
    };
    if !is_consonant_char(s[0]) {
        return None;
    }
    if a == 1 {
        return Some(1);
    }
    if s[1] == 'z' {
        return None;
    }
    let mut j: usize = 2;
    while j < a
        invariant
            2 <= j <= a,
            a <= s.len(),
            text::run_len(s@, CharClass::AsciiAlpha) == a,
            is_consonant_c(s@[0]),
            s@[1] != 'z',
            forall|i: int| 2 <= i < j ==> is_vowel_c(#[trigger] s@[i]),
        decreases a - j,
    {
        if !is_vowel_char(s[j]) {
            return None;
        }
        j = j + 1;
    }
    Some(a)
}

/// A definition line headed by an xxyx spelling.
pub fn read_line_xxyx_def(line: String) -> (r: Option<YongDef>)
    ensures
        def_view(r) == def_line(line@, xxyx_head(line@)),
{
    let s = chars_of(line.as_str());
    match xxyx_spell(&s) {
        Some(a) => to_yong_def(read_def(&s, a)),
        None => None,
    }
}

/// A definition line headed by a Cangjie spelling of ASCII letters.
pub fn read_line_cangjie_def(line: String) -> (r: Option<YongDef>)
    ensures
        def_view(r) == def_line(line@, run_head(line@, CharClass::AsciiAlpha)),
{
    let s = chars_of(line.as_str());
    match head_run(&s, &CharClass::AsciiAlpha) {
        Some(a) => to_yong_def(read_def(&s, a)),
        None => None,
    }
}

pub open spec fn all_ascii_alpha(s: Seq<char>) -> bool {
    forall|j: int| 0 <= j < s.len() ==> text::is_ascii_alpha(#[trigger] s[j])
}

/// The words made of ASCII letters only.
pub open spec fn alpha_words(ws: Seq<Seq<char>>) -> Seq<Seq<char>>
    decreases ws.len(),
{
    if ws.len() == 0 {
        seq![]
    } else if all_ascii_alpha(ws.last()) {
        alpha_words(ws.drop_last()).push(ws.last())
    } else {
        alpha_words(ws.drop_last())
    }
}

/// The words that are a single ASCII letter.
pub open spec fn letter_words(ws: Seq<Seq<char>>) -> Seq<Seq<char>>
    decreases ws.len(),
{
    if ws.len() == 0 {
        seq![]
    } else if ws.last().len() == 1 && text::is_ascii_alpha(ws.last()[0]) {
        letter_words(ws.drop_last()).push(ws.last())
    } else {
        letter_words(ws.drop_last())
    }
}

/// A line of a custom addition table: a single character, then its spellings;
/// words that are not all letters are dropped, and so is the last spelling.
pub open spec fn custom_add(s: Seq<char>) -> Option<(Seq<char>, Seq<Seq<char>>)> {
    match def_line(s, run_head(s, CharClass::NonSpace)) {
        Some((h, ws)) => if h.len() == 1 {
            let f = alpha_words(ws);
            Some((h, if f.len() > 0 { f.drop_last() } else { f }))
        } else {
            None
        },
        None => None,
    }
}

/// A line of a swap table: a key of at most one character, then the
/// single-letter keys that it ranges over.
pub open spec fn swap_key_line(s: Seq<char>) -> Option<(Seq<char>, Seq<Seq<char>>)> {
    match def_line(s, run_head(s, CharClass::NonSpace)) {
        Some((h, ws)) => if h.len() > 1 {
            None
        } else {
            Some((seq![h[0]], letter_words(ws)))
        },
        None => None,
    }
}

fn is_all_alpha(s: &Vec<char>) -> (b: bool)
    ensures
        b == all_ascii_alpha(s@),
{
    let mut i: usize = 0;
    while i < s.len()
        invariant
            i <= s.len(),
            forall|j: int| 0 <= j < i ==> text::is_ascii_alpha(#[trigger] s@[j]),
        decreases s.len() - i,
    {
        if !is_alpha(s[i]) {
            return false;
        }
        i = i + 1;
    }
    true
}

pub fn read_line_custom_add(line: String) -> (r: Option<StringStringsEntry>)
    ensures
        entry_view(r) == custom_add(line@),
{
    let s = chars_of(line.as_str());
    let a = match head_run(&s, &CharClass::NonSpace) {
        Some(a) => a,
        None => return None,
    };
    let (h, ws) = match read_def(&s, a) {
        Some(d) => d,
        None => return None,
    };
    if h.len() != 1 {
        return None;
    }
    let mut spells: Vec<Vec<char>> = Vec::new();
    let mut i: usize = 0;
    while i < ws.len()
        invariant
            i <= ws.len(),
            spells.deep_view() == alpha_words(ws.deep_view().take(i as int)),
        decreases ws.len() - i,
    {
        proof {
            assert(ws.deep_view().take(i + 1).drop_last() =~= ws.deep_view().take(i as int));
            text::lemma_chars_deep_view(&ws@[i as int]);
        }
        if is_all_alpha(&ws[i]) {
            let ghost d = spells.deep_view();
            spells.push(ws[i].clone());
            assert(spells.deep_view() =~= d.push(ws@[i as int]@));
        }
        i = i + 1;
    }
    assert(ws.deep_view().take(ws.len() as int) =~= ws.deep_view());
    let ghost before = spells.deep_view();
    if spells.len() > 0 {
        spells.pop();
        assert(spells.deep_view() =~= before.drop_last());
    }
    Some((string_of(&h), strings_of(&spells)))
}

pub fn read_line_swap_key(line: String) -> (r: Option<StringStringsEntry>)
    ensures
        entry_view(r) == swap_key_line(line@),
{
    let s = chars_of(line.as_str());
    let a = match head_run(&s, &CharClass::NonSpace) {
        Some(a) => a,
        None => return None,
    };
    let (h, ws) = match read_def(&s, a) {
        Some(d) => d,
        None => return None,
    };
    if h.len() > 1 {
        return None;
    }
    let mut keys: Vec<Vec<char>> = Vec::new();
    let mut i: usize = 0;
    while i < ws.len()
        invariant
            i <= ws.len(),
            keys.deep_view() == letter_words(ws.deep_view().take(i as int)),
        decreases ws.len() - i,
    {
        proof {
            assert(ws.deep_view().take(i + 1).drop_last() =~= ws.deep_view().take(i as int));
            text::lemma_chars_deep_view(&ws@[i as int]);
        }
        if ws[i].len() == 1 && is_alpha(ws[i][0]) {
            let ghost d = keys.deep_view();
            keys.push(ws[i].clone());
            assert(keys.deep_view() =~= d.push(ws@[i as int]@));
        }
        i = i + 1;
    }
    assert(ws.deep_view().take(ws.len() as int) =~= ws.deep_view());
    let mut k: Vec<char> = Vec::new();
    k.push(h[0]);
    assert(k@ =~= seq![h@[0]]);
    Some((string_of(&k), strings_of(&keys)))
}

pub open spec fn vowels_of(s: Seq<char>) -> Seq<char>
    decreases s.len(),
{
    if s.len() == 0 {
        seq![]
    } else if is_vowel_c(s.last()) {
        vowels_of(s.drop_last()).push(s.last())
    } else {
        vowels_of(s.drop_last())
    }
}

/// The vowels `a e u i o` of the text, in order.
pub fn filter_vowels(cs: &str) -> (r: String)
    ensures
        r@ == vowels_of(cs@),
{
    let s = chars_of(cs);
    let mut v: Vec<char> = Vec::new();
    let mut i: usize = 0;
    while i < s.len()
        invariant
            i <= s.len(),
            v@ == vowels_of(s@.take(i as int)),
        decreases s.len() - i,
    {
        assert(s@.take(i + 1).drop_last() =~= s@.take(i as int));
        if is_vowel_char(s[i]) {
            v.push(s[i]);
        }
        i = i + 1;
    }
    assert(s@.take(s.len() as int) =~= s@);
    string_of(&v)
}

/// The byte is one of the vowels `a e u i o`.
pub fn is_vowel(u: u8) -> (b: bool)
    ensures
        b == (u == 97 || u == 101 || u == 117 || u == 105 || u == 111),
{
    u == 97 || u == 101 || u == 117 || u == 105 || u == 111
}

pub fn is_vowel_char(c: char) -> (b: bool)
    ensures
        b == is_vowel_c(c),
{
    c == 'a' || c == 'e' || c == 'u' || c == 'i' || c == 'o'
}

pub fn is_consonant_char(c: char) -> (b: bool)
    ensures
        b == is_consonant_c(c),
{
    is_alpha(c) && !is_vowel_char(c)
}

} // verus!
