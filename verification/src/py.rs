//! Pinyin readings and their shuangpin (two-key) spelling with a tone key.
use crate::text::{self, CharClass, char_count_at_byte, char_string, chars_of, is_alpha, split_at_byte, split_tokens, string_of};
use pinyin::ToPinyin;
use vstd::prelude::*;

verus! {

#[derive(Debug, PartialEq, Eq, Structural, Clone, Copy)]
pub enum Tone {
    Tone1,
    Tone2,
    Tone3,
    Tone4,
    Tone0,
}

pub open spec fn tone_of_number(u: u32) -> Option<Tone> {
    if u == 0 {
        Some(Tone::Tone0)
    } else if u == 1 {
        Some(Tone::Tone1)
    } else if u == 2 {
        Some(Tone::Tone2)
    } else if u == 3 {
        Some(Tone::Tone3)
    } else if u == 4 {
        Some(Tone::Tone4)
    } else {
        None
    }
}

impl Tone {
    /// The tone with the given number, 0 for the neutral tone.
    #[allow(non_snake_case)]
    pub fn fromU32(u: &u32) -> (r: Option<Self>)
        ensures
            r == tone_of_number(*u),
    {
        match *u {
            0 => Some(Tone::Tone0),
            1 => Some(Tone::Tone1),
            2 => Some(Tone::Tone2),
            3 => Some(Tone::Tone3),
            4 => Some(Tone::Tone4),
            _ => None,
        }
    }
}

/// The key that spells a tone.
pub open spec fn tone_key(t: Tone) -> char {
    match t {
        Tone::Tone0 => 'a',
        Tone::Tone4 => 'e',
        Tone::Tone3 => 'u',
        Tone::Tone1 => 'i',
        Tone::Tone2 => 'o',
    }
}

/// A reading in the "tone number at the end" style, such as `pin1` or `de`.
#[derive(Debug, PartialEq, Eq, Clone)]
pub struct PinyinWithToneNumEnd(pub String);

/// The last byte of the reading is a whole character, so that it can be cut off.
pub open spec fn last_splittable(s: Seq<char>) -> bool {
    s.len() > 0 && (s.last() as u32) < 0x80
}

/// The reading ends in a digit 5..9, which names no tone.
pub open spec fn ends_in_bad_tone(s: Seq<char>) -> bool {
    s.len() > 0 && '5' <= s.last() && s.last() <= '9'
}

pub open spec fn digit_value(c: char) -> u32 {
    ((c as u32) - ('0' as u32)) as u32
}

/// The reading without its tone number, and the tone (neutral when there is no number).
pub open spec fn spec_split_tone(s: Seq<char>) -> (Seq<char>, Tone) {
    if s.len() > 0 && '0' <= s.last() && s.last() <= '4' {
        (s.drop_last(), tone_of_number(digit_value(s.last())).unwrap())
    } else {
        (s, Tone::Tone0)
    }
}

pub open spec fn spec_tone(s: Seq<char>) -> Tone {
    spec_split_tone(s).1
}

pub open spec fn is_pinyin_vowel(c: char) -> bool {
    c == 'a' || c == 'e' || c == 'u' || c == 'i' || c == 'o' || c == 'ü'
}

/// Index of the first vowel of `s`.
pub open spec fn first_vowel(s: Seq<char>) -> Option<int>
    decreases s.len(),
{
    if s.len() == 0 {
        None
    } else if is_pinyin_vowel(s[0]) {
        Some(0)
    } else {
        match first_vowel(s.skip(1)) {
            Some(i) => Some(i + 1),
            None => None,
        }
    }
}

/// The vowel's character index is used as a byte offset into the toneless
/// reading; that offset must fall between characters.
pub open spec fn cv_splittable(s: Seq<char>) -> bool {
    let sheng = spec_split_tone(s).0;
    match first_vowel(sheng) {
        Some(i) => text::is_byte_boundary(sheng, i),
        None => true,
    }
}

/// Initial and final of the reading; a reading without vowel gets the final `ia`.
pub open spec fn spec_split_cv(s: Seq<char>) -> (Seq<char>, Seq<char>) {
    let sheng = spec_split_tone(s).0;
    match first_vowel(sheng) {
        Some(i) => {
            let k = text::chars_in_bytes(sheng, i);
            (sheng.take(k), sheng.skip(k))
        },
        None => (sheng, seq!['i', 'a']),
    }
}

pub open spec fn shift_index(o: Option<int>, d: int) -> Option<int> {
    match o {
        Some(x) => Some(x + d),
        None => None,
    }
}

proof fn lemma_first_vowel(s: Seq<char>, i: int)
    requires
        0 <= i <= s.len(),
        forall|j: int| 0 <= j < i ==> !is_pinyin_vowel(#[trigger] s[j]),
    ensures
        first_vowel(s) == shift_index(first_vowel(s.skip(i)), i),
    decreases i,
{
    if i == 0 {
        assert(s.skip(0) =~= s);
        match first_vowel(s) {
            Some(x) => {},
            None => {},
        }
    } else {
        lemma_first_vowel(s.skip(1), i - 1);
        assert(s.skip(1).skip(i - 1) =~= s.skip(i));
        assert(!is_pinyin_vowel(s[0]));
        match first_vowel(s.skip(i)) {
            Some(x) => {},
            None => {},
        }
    }
}

fn find_first_vowel(s: &Vec<char>) -> (r: Option<usize>)
    ensures
        r matches Some(i) ==> i < s.len() && first_vowel(s@) == Some(i as int),
        r is None ==> first_vowel(s@) is None,
{
    let mut i: usize = 0;
    while i < s.len()
        invariant
            i <= s.len(),
            forall|j: int| 0 <= j < i ==> !is_pinyin_vowel(#[trigger] s@[j]),
        decreases s.len() - i,
    {
        let c = s[i];
        if c == 'a' || c == 'e' || c == 'u' || c == 'i' || c == 'o' || c == 'ü' {
            proof {
                lemma_first_vowel(s@, i as int);
            }
            return Some(i);
        }
        i = i + 1;
    }
    proof {
        lemma_first_vowel(s@, i as int);
        assert(s@.skip(i as int).len() == 0);
    }
    None
}

impl PinyinWithToneNumEnd {
    /// Cuts off the last byte (the tone number).
    pub fn split_last(&self) -> (r: (String, String))
        requires
            last_splittable(self.0@),
        ensures
            r.0@ == self.0@.drop_last(),
            r.1@ == seq![self.0@.last()],
    {
        let cs = chars_of(self.0.as_str());
        let mut head = cs.clone();
        let last = head.pop().unwrap();
        (string_of(&head), char_string(last))
    }

    /// The reading without its tone number, and the tone; a reading whose last
    /// character is no tone digit is returned whole with the neutral tone.
    pub fn split_tone(&self) -> (r: (String, Tone))
        requires
            last_splittable(self.0@),
        ensures
            (r.0@, r.1) == spec_split_tone(self.0@),
    {
        let cs = chars_of(self.0.as_str());
        let mut head = cs.clone();
        let last = head.pop().unwrap();
        if '0' <= last && last <= '9' {
            let d: u32 = (last as u32) - ('0' as u32);
            match Tone::fromU32(&d) {
                Some(t) => (string_of(&head), t),
                None => (self.0.clone(), Tone::Tone0),
            }
        } else {
            (self.0.clone(), Tone::Tone0)
        }
    }

    /// The tone of the reading; neutral when it ends in no digit.
    pub fn tone(&self) -> (t: Tone)
        requires
            last_splittable(self.0@),
            !ends_in_bad_tone(self.0@),
        ensures
            t == spec_tone(self.0@),
    {
        let (_, t) = self.split_tone();
        t
    }

    /// Initial and final of the reading.
    pub fn split_cv(&self) -> (r: (String, String))
        requires
            last_splittable(self.0@),
            cv_splittable(self.0@),
        ensures
            (r.0@, r.1@) == spec_split_cv(self.0@),
    {
        let (sheng, _) = self.split_tone();
        let cs = chars_of(sheng.as_str());
        match find_first_vowel(&cs) {
            Some(i) => {
                let (a, b) = split_at_byte(&cs, i);
                (string_of(&a), string_of(&b))
            },
            None => {
                let mut ia: Vec<char> = Vec::new();
                ia.push('i');
                ia.push('a');
                assert(ia@ =~= seq!['i', 'a']);
                (sheng, string_of(&ia))
            },
        }
    }
}

/// A shuangpin table: each spelling of an initial or a final with its key.
/// Later entries take precedence over earlier ones.
pub type ShuangPinTable = Vec<(String, char)>;

/// The key of `key` in the table: the one of its last entry.
pub open spec fn table_get(t: Seq<(String, char)>, key: Seq<char>) -> Option<char>
    decreases t.len(),
{
    if t.len() == 0 {
        None
    } else if t.last().0@ == key {
        Some(t.last().1)
    } else {
        table_get(t.drop_last(), key)
    }
}

pub fn table_lookup(t: &ShuangPinTable, key: &String) -> (r: Option<char>)
    ensures
        r == table_get(t@, key@),
{
    let mut i = t.len();
    assert(t@.take(i as int) =~= t@);
    while i > 0
        invariant
            i <= t.len(),
            table_get(t@, key@) == table_get(t@.take(i as int), key@),
        decreases i,
    {
        assert(t@.take(i as int).drop_last() =~= t@.take(i - 1));
        if t[i - 1].0 == *key {
            return Some(t[i - 1].1);
        }
        i = i - 1;
    }
    None
}

#[derive(Debug, Clone)]
pub struct ShuangPinTables {
    /// keys of initials
    pub c: ShuangPinTable,
    /// keys of finals
    pub v: ShuangPinTable,
}

impl ShuangPinTables {
    pub fn new() -> (r: Self)
        ensures
            r.c@.len() == 0,
            r.v@.len() == 0,
    {
        ShuangPinTables { c: Vec::new(), v: Vec::new() }
    }
}

/// A final starts with one of `a e u i o v`.
pub open spec fn starts_as_final(s: Seq<char>) -> bool {
    s.len() > 0 && (s[0] == 'a' || s[0] == 'e' || s[0] == 'u' || s[0] == 'i' || s[0] == 'o'
        || s[0] == 'v')
}

/// What a line of a shuangpin table file adds: a one-letter key followed by a
/// spelling, as the first two whitespace-separated words; finals go to the
/// second table.
pub open spec fn table_line_entry(line: Seq<char>) -> Option<(bool, Seq<char>, char)> {
    let w = text::tokens(line, CharClass::Whitespace);
    if w.len() >= 2 && w[0].len() == 1 && (w[0][0] as u32) < 0x80 && text::is_ascii_alpha(w[0][0]) {
        Some((starts_as_final(w[1]), w[1], w[0][0]))
    } else {
        None
    }
}

pub open spec fn table_entries(lines: Seq<Seq<char>>, finals: bool) -> Seq<(Seq<char>, char)>
    decreases lines.len(),
{
    if lines.len() == 0 {
        seq![]
    } else {
        let prev = table_entries(lines.drop_last(), finals);
        match table_line_entry(lines.last()) {
            Some((f, yin, key)) => if f == finals {
                prev.push((yin, key))
            } else {
                prev
            },
            None => prev,
        }
    }
}

pub open spec fn table_view(t: Seq<(String, char)>) -> Seq<(Seq<char>, char)> {
    t.map_values(|e: (String, char)| (e.0@, e.1))
}

/// Reads the tables from the lines of a shuangpin table file.
pub fn shuangpin_table_parser(lines: &Vec<String>) -> (r: ShuangPinTables)
    ensures
        table_view(r.c@) == table_entries(text::strs(lines@), false),
        table_view(r.v@) == table_entries(text::strs(lines@), true),
{
    let mut tables = ShuangPinTables::new();
    let mut i: usize = 0;
    while i < lines.len()
        invariant
            i <= lines.len(),
            table_view(tables.c@) == table_entries(text::strs(lines@).take(i as int), false),
            table_view(tables.v@) == table_entries(text::strs(lines@).take(i as int), true),
        decreases lines.len() - i,
    {
        proof {
            assert(text::strs(lines@).take(i + 1).drop_last() =~= text::strs(lines@).take(i as int));
            assert(text::strs(lines@).take(i + 1).last() == lines@[i as int]@);
        }
        let line = chars_of(lines[i].as_str());
        let w = split_tokens(&line, &CharClass::Whitespace);
        if w.len() >= 2 && w[0].len() == 1 && (w[0][0] as u32) < 0x80 && is_alpha(w[0][0]) {
            proof {
                text::lemma_chars_deep_view(&w@[0]);
                text::lemma_chars_deep_view(&w@[1]);
            }
            let key = w[0][0];
            let yin = string_of(&w[1]);
            let f = w[1].len() > 0 && (w[1][0] == 'a' || w[1][0] == 'e' || w[1][0] == 'u' || w[1][0]
                == 'i' || w[1][0] == 'o' || w[1][0] == 'v');
            if f {
                let ghost old_v = table_view(tables.v@);
                tables.v.push((yin, key));
                assert(table_view(tables.v@) =~= old_v.push((w@[1]@, key)));
            } else {
                let ghost old_c = table_view(tables.c@);
                tables.c.push((yin, key));
                assert(table_view(tables.c@) =~= old_c.push((w@[1]@, key)));
            }
        }
        i = i + 1;
    }
    assert(text::strs(lines@).take(lines.len() as int) =~= text::strs(lines@));
    tables
}

pub open spec fn replace_u_umlaut(s: Seq<char>) -> Seq<char> {
    s.map_values(
        |c: char|
            if c == 'ü' {
                'v'
            } else {
                c
            },
    )
}

/// A shuangpin spelling: initial key, final key and tone.
#[derive(Debug, PartialEq, Eq, Structural, Clone, Copy)]
pub struct ShuangPinTone {
    pub zi: char,
    pub mu: char,
    pub tone: Tone,
}

/// The readings that `ShuangPinTone::from` accepts.
pub open spec fn shuangpin_ready(s: Seq<char>) -> bool {
    last_splittable(s) && cv_splittable(s) && !ends_in_bad_tone(s)
}

/// The shuangpin spelling of a reading: the initial's key (its own first letter
/// when the table has none; the key of `V` for readings without initial), the
/// final's key (with `ü` written `v`; its own first letter when the table has
/// none) and the tone.
pub open spec fn spec_shuangpin(
    s: Seq<char>,
    c: Seq<(String, char)>,
    v: Seq<(String, char)>,
) -> ShuangPinTone {
    let (z, m) = spec_split_cv(s);
    let zi = if z.len() == 0 {
        match table_get(c, seq!['V']) {
            Some(a) => a,
            None => 'v',
        }
    } else {
        match table_get(c, z) {
            Some(a) => a,
            None => z[0],
        }
    };
    let f = replace_u_umlaut(m);
    let mu = match table_get(v, f) {
        Some(r) => r,
        None => f[0],
    };
    ShuangPinTone { zi, mu, tone: spec_tone(s) }
}

/// The three keys of a shuangpin spelling.
pub open spec fn shuangpin_keys(t: ShuangPinTone) -> Seq<char> {
    seq![t.zi, t.mu, tone_key(t.tone)]
}

proof fn lemma_split_cv_final_nonempty(s: Seq<char>)
    requires
        last_splittable(s),
        cv_splittable(s),
    ensures
        spec_split_cv(s).1.len() > 0,
{
    let sheng = spec_split_tone(s).0;
    match first_vowel(sheng) {
        Some(i) => {
            lemma_first_vowel_in(sheng);
            let w = choose|w: int| 0 <= w <= sheng.len() && text::byte_len(#[trigger] sheng.take(w)) == i;
            text::lemma_chars_in_bytes(sheng, i, w);
            text::lemma_byte_len_take_mono(sheng, 0, w);
            assert(sheng.take(0) =~= Seq::<char>::empty());
        },
        None => {},
    }
}

proof fn lemma_first_vowel_in(s: Seq<char>)
    ensures
        first_vowel(s) matches Some(i) ==> 0 <= i < s.len(),
    decreases s.len(),
{
    if s.len() > 0 && !is_pinyin_vowel(s[0]) {
        lemma_first_vowel_in(s.skip(1));
    }
}

impl ShuangPinTone {
    /// The three keys: initial, final and the tone key.
    pub fn to_string(&self) -> (s: String)
        ensures
            s@ == shuangpin_keys(*self),
    {
        let t = match self.tone {
            Tone::Tone0 => 'a',
            Tone::Tone4 => 'e',
            Tone::Tone3 => 'u',
            Tone::Tone1 => 'i',
            Tone::Tone2 => 'o',
        };
        let mut v: Vec<char> = Vec::new();
        v.push(self.zi);
        v.push(self.mu);
        v.push(t);
        assert(v@ =~= shuangpin_keys(*self));
        string_of(&v)
    }

    pub fn from(py: &PinyinWithToneNumEnd, tables: &ShuangPinTables) -> (r: Self)
        requires
            shuangpin_ready(py.0@),
        ensures
            r == spec_shuangpin(py.0@, tables.c@, tables.v@),
    {
        let (z, m) = py.split_cv();
        let zc = chars_of(z.as_str());
        let zi: char = if zc.len() == 0 {
            let mut vv: Vec<char> = Vec::new();
            vv.push('V');
            let vs = string_of(&vv);
            assert(vs@ =~= seq!['V']);
            match table_lookup(&tables.c, &vs) {
                Some(a) => a,
                None => 'v',
            }
        } else {
            match table_lookup(&tables.c, &z) {
                Some(a) => a,
                None => zc[0],
            }
        };
        let mc = chars_of(m.as_str());
        let mut fc: Vec<char> = Vec::new();
        let mut i: usize = 0;
        while i < mc.len()
            invariant
                i <= mc.len(),
                fc@ == replace_u_umlaut(mc@.take(i as int)),
            decreases mc.len() - i,
        {
            if mc[i] == 'ü' {
                fc.push('v');
            } else {
                fc.push(mc[i]);
            }
            i = i + 1;
            assert(fc@ =~= replace_u_umlaut(mc@.take(i as int)));
        }
        assert(mc@.take(mc.len() as int) =~= mc@);
        proof {
            lemma_split_cv_final_nonempty(py.0@);
        }
        let f = string_of(&fc);
        let mu = match table_lookup(&tables.v, &f) {
            Some(r) => r,
            None => fc[0],
        };
        ShuangPinTone { zi, mu, tone: py.tone() }
    }
}

/// The reading that the `pinyin` crate gives a character, in the style with the
/// tone number at the end.
pub uninterp spec fn pinyin_tone_num_end(c: char) -> Option<Seq<char>>;

/// Calls `pinyin::ToPinyin::to_pinyin` on `c` and, for a character with a
/// reading, `pinyin::Pinyin::with_tone_num_end` on it. Stated: the result is the
/// named reading of `c`. Not stated: which characters have a reading, and the
/// letters and digits that a reading is made of.
#[verifier::external_body]
fn char_pinyin(c: char) -> (r: Option<String>)
    ensures
        match r {
            Some(s) => pinyin_tone_num_end(c) == Some(s@),
            None => pinyin_tone_num_end(c) is None,
        },
{
    match c.to_pinyin() {
        Some(p) => Some(p.with_tone_num_end().to_string()),
        None => None,
    }
}

/// The shuangpin spelling of the reading of `c` with the given tables.
pub open spec fn shuangpin_tone_of(c: char, tables: ShuangPinTables) -> Option<ShuangPinTone> {
    match pinyin_tone_num_end(c) {
        Some(p) => if shuangpin_ready(p) {
            Some(spec_shuangpin(p, tables.c@, tables.v@))
        } else {
            None
        },
        None => None,
    }
}

/// The three keys of the shuangpin spelling of `c`, or `default` where it has none.
pub open spec fn py_keys_or(c: char, tables: ShuangPinTables, default: Seq<char>) -> Seq<char> {
    match shuangpin_tone_of(c, tables) {
        Some(t) => shuangpin_keys(t),
        None => default,
    }
}

/// The shuangpin spelling of the reading of `c`; `None` for a character without
/// reading, and for a reading that `ShuangPinTone::from` cannot take apart.
pub fn get_shuangpin_tone(c: char, tables: &ShuangPinTables) -> (r: Option<ShuangPinTone>)
    ensures
        r == shuangpin_tone_of(c, *tables),
{
    match char_pinyin(c) {
        Some(p) => shuangpin_of_reading(&PinyinWithToneNumEnd(p), tables),
        None => None,
    }
}

/// The shuangpin spelling of a reading, where `ShuangPinTone::from` can take it apart.
pub fn shuangpin_of_reading(py: &PinyinWithToneNumEnd, tables: &ShuangPinTables) -> (r: Option<
    ShuangPinTone,
>)
    ensures
        r == (if shuangpin_ready(py.0@) {
            Some(spec_shuangpin(py.0@, tables.c@, tables.v@))
        } else {
            None
        }),
{
    let cs = chars_of(py.0.as_str());
    if cs.len() == 0 || (cs[cs.len() - 1] as u32) >= 0x80 {
        return None;
    }
    let last = cs[cs.len() - 1];
    if '5' <= last && last <= '9' {
        return None;
    }
    let (sheng, _) = py.split_tone();
    let sc = chars_of(sheng.as_str());
    match find_first_vowel(&sc) {
        Some(i) => {
            if char_count_at_byte(&sc, i).is_none() {
                return None;
            }
        },
        None => {},
    }
    Some(ShuangPinTone::from(py, tables))
}

/// The keys of the shuangpin spelling of `c`, or the given default.
pub fn py_keys(c: char, tables: &ShuangPinTables, default: &str) -> (r: Vec<char>)
    ensures
        r@ == py_keys_or(c, *tables, default@),
{
    match get_shuangpin_tone(c, tables) {
        Some(t) => chars_of(t.to_string().as_str()),
        None => chars_of(default),
    }
}


/// Each tone has its own key, so the three keys of a shuangpin spelling tell
/// the spelling apart.
pub proof fn lemma_shuangpin_keys_injective(a: ShuangPinTone, b: ShuangPinTone)
    ensures
        shuangpin_keys(a) == shuangpin_keys(b) ==> a == b,
{
    if shuangpin_keys(a) == shuangpin_keys(b) {
        assert(shuangpin_keys(a)[2] == shuangpin_keys(b)[2]);
        assert(shuangpin_keys(a)[0] == shuangpin_keys(b)[0]);
        assert(shuangpin_keys(a)[1] == shuangpin_keys(b)[1]);
    }
}


/// The key that a table gives a spelling is that of the table's last entry for
/// it; a table without an entry for it gives none.
proof fn lemma_table_get(t: Seq<(String, char)>, key: Seq<char>)
    ensures
        forall|i: int|
            0 <= i < t.len() && (#[trigger] t[i]).0@ == key && (forall|j: int| i < j < t.len() ==> (#[trigger] t[j]).0@ != key)
                ==> table_get(t, key) == Some(t[i].1),
        (forall|i: int| 0 <= i < t.len() ==> (#[trigger] t[i]).0@ != key) ==> table_get(t, key) is None,
    decreases t.len(),
{
    if t.len() > 0 {
        let u = t.drop_last();
        lemma_table_get(u, key);
        assert forall|i: int|
            0 <= i < t.len() && (#[trigger] t[i]).0@ == key && (forall|j: int| i < j < t.len() ==> (#[trigger] t[j]).0@ != key)
            implies table_get(t, key) == Some(t[i].1) by {
            if i < t.len() - 1 {
                assert(t[t.len() - 1].0@ != key);
                assert(u[i] == t[i]);
                assert forall|j: int| i < j < u.len() implies (#[trigger] u[j]).0@ != key by {
                    assert(u[j] == t[j]);
                }
            }
        }
        if forall|i: int| 0 <= i < t.len() ==> (#[trigger] t[i]).0@ != key {
            assert(t[t.len() - 1].0@ != key);
            assert forall|i: int| 0 <= i < u.len() implies (#[trigger] u[i]).0@ != key by {
                assert(u[i] == t[i]);
            }
        }
    }
}

/// A shuangpin spelling takes its keys from the tables: the initial of the
/// reading gets the key of the initials table's last entry for it, or its own
/// first letter when the table has no entry for it (a reading without initial
/// gets the key of the entry for `V`, or `v`); the final (with `ü`
/// written `v`) gets the key of the finals table's last entry for it, or its
/// own first letter; the tone is the reading's tone.
pub proof fn lemma_shuangpin_from_tables(s: Seq<char>, c: Seq<(String, char)>, v: Seq<(String, char)>)
    requires
        shuangpin_ready(s),
    ensures
        ({
            let (z, m) = spec_split_cv(s);
            let f = replace_u_umlaut(m);
            let t = spec_shuangpin(s, c, v);
            &&& forall|i: int|
                0 <= i < c.len() && z.len() > 0 && (#[trigger] c[i]).0@ == z && (forall|j: int|
                    i < j < c.len() ==> (#[trigger] c[j]).0@ != z) ==> t.zi == c[i].1
            &&& (z.len() > 0 && (forall|i: int| 0 <= i < c.len() ==> (#[trigger] c[i]).0@ != z)
                ==> t.zi == z[0])
            &&& forall|i: int|
                0 <= i < c.len() && z.len() == 0 && (#[trigger] c[i]).0@ == seq!['V'] && (forall|j: int|
                    i < j < c.len() ==> (#[trigger] c[j]).0@ != seq!['V']) ==> t.zi == c[i].1
            &&& (z.len() == 0 && (forall|i: int| 0 <= i < c.len() ==> (#[trigger] c[i]).0@ != seq!['V'])
                ==> t.zi == 'v')
            &&& forall|i: int|
                0 <= i < v.len() && (#[trigger] v[i]).0@ == f && (forall|j: int|
                    i < j < v.len() ==> (#[trigger] v[j]).0@ != f) ==> t.mu == v[i].1
            &&& ((forall|i: int| 0 <= i < v.len() ==> (#[trigger] v[i]).0@ != f) ==> t.mu == f[0])
            &&& t.tone == spec_tone(s)
        }),
{
    let (z, m) = spec_split_cv(s);
    lemma_table_get(c, z);
    lemma_table_get(c, seq!['V']);
    lemma_table_get(v, replace_u_umlaut(m));
}

} // verus!
