//! Scoring a swap table over a dictionary, the record of a scored
//! permutation, and the data of the driver that works through permutations.
use crate::cmap::{self, CharMap};
use crate::dict::{self, put_entry};
use crate::kt::{self, SwapKeyDict, YongDictWordSpells};
use crate::out::{
    self, WithMakeWordSpecifier, WordSpellsEntry, spell_words_dict_tostring,
    specifier_to_wordspells,
};
use crate::py::ShuangPinTables;
use crate::text::{self, chars_of, decimal_chars, lines_of, parse_usize, split_pieces, string_of};
use std::time::Duration;
use vstd::prelude::*;

verus! {

/// Number of make-word spells whose fourth character is `.` or `,`: spells
/// that break the chain of keys.
pub open spec fn unchained(sp: Seq<Seq<char>>) -> nat
    decreases sp.len(),
{
    if sp.len() == 0 {
        0
    } else {
        unchained(sp.drop_last()) + if sp.last().len() > 3 && (sp.last()[3] == '.' || sp.last()[3]
            == ',') {
            1nat
        } else {
            0nat
        }
    }
}

/// The unchained make-word spells of all words.
pub open spec fn unchained_total(j: Seq<(Seq<char>, out::SpecView)>) -> nat
    decreases j.len(),
{
    if j.len() == 0 {
        0
    } else {
        unchained_total(j.drop_last()) + unchained(j.last().1.0)
    }
}

/// What scoring a dictionary under a swap dictionary needs: each word ready
/// for the main Cangjie scheme, and a total that fits.
pub open spec fn scoring_ready(
    d: Seq<(String, Vec<crate::spell::SpecifySpelling>)>,
    sd: Seq<(Seq<char>, Seq<char>)>,
    sp: ShuangPinTables,
    fls: Seq<Seq<char>>,
) -> bool {
    &&& words_ready(d, sd)
    &&& unchained_total(out::specify_all(d, sd, sp, fls)) <= usize::MAX
}

proof fn lemma_unchained_total_prefix(j: Seq<(Seq<char>, out::SpecView)>, i: int)
    requires
        0 <= i <= j.len(),
    ensures
        unchained_total(j.take(i)) <= unchained_total(j),
    decreases j.len() - i,
{
    if i < j.len() {
        lemma_unchained_total_prefix(j, i + 1);
        assert(j.take(i + 1).drop_last() =~= j.take(i));
    } else {
        assert(j.take(i) =~= j);
    }
}

/// Each word ready for the main Cangjie scheme under the swap dictionary.
pub open spec fn words_ready(
    d: Seq<(String, Vec<crate::spell::SpecifySpelling>)>,
    sd: Seq<(Seq<char>, Seq<char>)>,
) -> bool {
    forall|i: int|
        0 <= i < d.len() ==> out::cjmain_ready(
            (#[trigger] d[i]).0@,
            out::entry_cjs(out::entry_of(d[i])),
            sd,
        )
}

/// Each word of the dictionary with its spells under the main Cangjie scheme.
fn specify_words(
    swap_dict: &SwapKeyDict,
    dict: &YongDictWordSpells,
    shuangpin: &ShuangPinTables,
    fluents: &Vec<String>,
) -> (r: Vec<(String, WithMakeWordSpecifier)>)
    requires
        words_ready(dict@, kt::sd_view(swap_dict@)),
    ensures
        out::wms_view(r@) == out::specify_all(
            dict@,
            kt::sd_view(swap_dict@),
            *shuangpin,
            text::strs(fluents@),
        ),
{
    let ghost target = out::specify_all(
        dict@,
        kt::sd_view(swap_dict@),
        *shuangpin,
        text::strs(fluents@),
    );
    let mut j: Vec<(String, WithMakeWordSpecifier)> = Vec::new();
    let mut i: usize = 0;
    while i < dict.len()
        invariant
            i <= dict.len(),
            target == out::specify_all(
                dict@,
                kt::sd_view(swap_dict@),
                *shuangpin,
                text::strs(fluents@),
            ),
            words_ready(dict@, kt::sd_view(swap_dict@)),
            out::wms_view(j@) == target.take(i as int),
        decreases dict.len() - i,
    {
        let e = WordSpellsEntry::from_tuple((&dict[i].0, &dict[i].1));
        assert(out::entry_cjs(e) == out::entry_cjs(out::entry_of(dict@[i as int])));
        let w = e.word.clone();
        let spec = e.to_cjmain_with_specifier(swap_dict, shuangpin, fluents);
        let ghost before = out::wms_view(j@);
        let ghost entry = (w@, out::wm_view(spec));
        assert(entry == target[i as int]);
        j.push((w, spec));
        assert(out::wms_view(j@) =~= before.push(entry));
        assert(target.take(i + 1) =~= target.take(i as int).push(target[i as int]));
        i = i + 1;
    }
    assert(target.take(dict.len() as int) =~= target);
    j
}

/// The number of chain-breaking make-word spells of the words; `None` when it
/// does not fit in `usize`.
fn unchained_count(j: &Vec<(String, WithMakeWordSpecifier)>) -> (r: Option<usize>)
    ensures
        match r {
            Some(n) => n == unchained_total(out::wms_view(j@)),
            None => unchained_total(out::wms_view(j@)) > usize::MAX,
        },
{
    let ghost jv = out::wms_view(j@);
    let mut count: usize = 0;
    let mut i: usize = 0;
    while i < j.len()
        invariant
            i <= j.len(),
            jv == out::wms_view(j@),
            count == unchained_total(jv.take(i as int)),
        decreases j.len() - i,
    {
        proof {
            assert(jv.take(i + 1).drop_last() =~= jv.take(i as int));
            lemma_unchained_total_prefix(jv, i + 1);
        }
        let sp = &j[i].1.specified_for_make_word_spells;
        let ghost spv = text::strs(sp@);
        assert(spv == jv[i as int].1.0);
        let mut n: usize = 0;
        let mut q: usize = 0;
        while q < sp.len()
            invariant
                q <= sp.len(),
                spv == text::strs(sp@),
                n == unchained(spv.take(q as int)),
                n <= q,
            decreases sp.len() - q,
        {
            proof {
                assert(spv.take(q + 1).drop_last() =~= spv.take(q as int));
            }
            let cs = chars_of(sp[q].as_str());
            if cs.len() > 3 && (cs[3] == '.' || cs[3] == ',') {
                n = n + 1;
            }
            q = q + 1;
        }
        assert(spv.take(sp.len() as int) =~= spv);
        match count.checked_add(n) {
            Some(c) => {
                count = c;
            },
            None => {
                return None;
            },
        }
        i = i + 1;
    }
    assert(jv.take(j.len() as int) =~= jv);
    Some(count)
}

/// Each word of the dictionary with its spells under the main Cangjie scheme
/// and the swap dictionary, and the number of their make-word spells that
/// break the key chain.
pub fn word_withspecifiers_stringdict(
    swap_dict: &SwapKeyDict,
    dict: &YongDictWordSpells,
    shuangpin: &ShuangPinTables,
    fluents: &Vec<String>,
) -> (r: (usize, Vec<(String, WithMakeWordSpecifier)>))
    requires
        scoring_ready(dict@, kt::sd_view(swap_dict@), *shuangpin, text::strs(fluents@)),
    ensures
        out::wms_view(r.1@) == out::specify_all(
            dict@,
            kt::sd_view(swap_dict@),
            *shuangpin,
            text::strs(fluents@),
        ),
        r.0 == unchained_total(
            out::specify_all(dict@, kt::sd_view(swap_dict@), *shuangpin, text::strs(fluents@)),
        ),
{
    let j = specify_words(swap_dict, dict, shuangpin, fluents);
    match unchained_count(&j) {
        Some(n) => (n, j),
        None => {
            proof {
                assert(false);
            }
            (0, j)
        },
    }
}

/// The scored words as `word_withspecifiers_stringdict` gives them, when the
/// dictionary is ready for the swap dictionary; `None` when it is not.
pub fn score_swap_dict(
    swap_dict: &SwapKeyDict,
    dict: &YongDictWordSpells,
    shuangpin: &ShuangPinTables,
    fluents: &Vec<String>,
) -> (r: Option<(usize, Vec<(String, WithMakeWordSpecifier)>)>)
    ensures
        match r {
            Some(t) => {
                &&& scoring_ready(dict@, kt::sd_view(swap_dict@), *shuangpin, text::strs(fluents@))
                &&& out::wms_view(t.1@) == out::specify_all(
                    dict@,
                    kt::sd_view(swap_dict@),
                    *shuangpin,
                    text::strs(fluents@),
                )
                &&& t.0 == unchained_total(
                    out::specify_all(
                        dict@,
                        kt::sd_view(swap_dict@),
                        *shuangpin,
                        text::strs(fluents@),
                    ),
                )
            },
            None => !scoring_ready(dict@, kt::sd_view(swap_dict@), *shuangpin, text::strs(fluents@)),
        },
{
    let mut i: usize = 0;
    while i < dict.len()
        invariant
            i <= dict.len(),
            forall|q: int|
                0 <= q < i ==> out::cjmain_ready(
                    (#[trigger] dict@[q]).0@,
                    out::entry_cjs(out::entry_of(dict@[q])),
                    kt::sd_view(swap_dict@),
                ),
        decreases dict.len() - i,
    {
        if !out::cjmain_ready_check(&dict[i].0, &dict[i].1, swap_dict) {
            return None;
        }
        i = i + 1;
    }
    let j = specify_words(swap_dict, dict, shuangpin, fluents);
    match unchained_count(&j) {
        Some(n) => Some((n, j)),
        None => None,
    }
}

/// The swap dictionary of a character swap table: each key and value as a
/// one-letter string, a later pair of a key replacing an earlier one.
pub open spec fn char_swap_entries(m: Seq<(char, char)>) -> Seq<(Seq<char>, Seq<char>)> {
    m.map_values(|p: (char, char)| (seq![p.0], seq![p.1]))
}

pub fn char_swap_dict(swap_dict: &CharMap) -> (r: SwapKeyDict)
    ensures
        kt::sd_view(r@) == dict::put_all(char_swap_entries(swap_dict@)),
{
    let mut r: SwapKeyDict = Vec::new();
    let mut i: usize = 0;
    while i < swap_dict.len()
        invariant
            i <= swap_dict.len(),
            dict::vview(r@) == dict::put_all(char_swap_entries(swap_dict@.take(i as int))),
        decreases swap_dict.len() - i,
    {
        proof {
            assert(char_swap_entries(swap_dict@.take(i + 1)).drop_last() =~= char_swap_entries(
                swap_dict@.take(i as int),
            ));
        }
        let (k, v) = swap_dict[i];
        put_entry(&mut r, text::char_string(k), text::char_string(v));
        i = i + 1;
    }
    assert(swap_dict@.take(swap_dict.len() as int) =~= swap_dict@);
    assert(kt::sd_view(r@) =~= dict::vview(r@));
    r
}

/// The words of the dictionary scored under a character swap table (see
/// `word_withspecifiers_stringdict`).
pub fn word_withspecifiers(
    swap_dict: &CharMap,
    dict: &YongDictWordSpells,
    shuangpin: &ShuangPinTables,
    fluents: &Vec<String>,
) -> (r: (usize, Vec<(String, WithMakeWordSpecifier)>))
    requires
        scoring_ready(
            dict@,
            dict::put_all(char_swap_entries(swap_dict@)),
            *shuangpin,
            text::strs(fluents@),
        ),
    ensures
        out::wms_view(r.1@) == out::specify_all(
            dict@,
            dict::put_all(char_swap_entries(swap_dict@)),
            *shuangpin,
            text::strs(fluents@),
        ),
        r.0 == unchained_total(
            out::specify_all(
                dict@,
                dict::put_all(char_swap_entries(swap_dict@)),
                *shuangpin,
                text::strs(fluents@),
            ),
        ),
{
    let stringdict = char_swap_dict(swap_dict);
    word_withspecifiers_stringdict(&stringdict, dict, shuangpin, fluents)
}

/// The spell table of scored words fits the ordering of spells.
pub open spec fn record_fits(j: Seq<(Seq<char>, out::SpecView)>) -> bool {
    forall|i: int|
        0 <= i < out::flip_specified(j).len() ==> (#[trigger] out::flip_specified(j)[i]).0.len()
            <= i32::MAX
}

/// The first line of a record: the score, a space, the permutation and a line feed.
pub open spec fn record_head_text(score: nat, perm: Seq<char>) -> Seq<char> {
    text::decimal(score) + seq![' '] + perm + seq!['\n']
}

/// The record of a scored permutation: a line with the score and the
/// permutation, then the spell table of the scored words.
pub open spec fn record_text(score: nat, perm: Seq<char>, j: Seq<(Seq<char>, out::SpecView)>) -> Seq<
    char,
> {
    record_head_text(score, perm) + out::table_text(out::sort_by_spell(out::flip_specified(j)))
}

/// Writes the first line of a record: the score and the permutation.
pub fn record_head(perm: &Vec<char>, score: usize) -> (s: String)
    ensures
        s@ == record_head_text(score as nat, perm@),
{
    let mut r = decimal_chars(score as u64);
    r.push(' ');
    text::push_all(&mut r, perm);
    r.push('\n');
    string_of(&r)
}

/// Writes the record of a permutation and its score.
pub fn perm_record(perm: &Vec<char>, t: (usize, Vec<(String, WithMakeWordSpecifier)>)) -> (s: String)
    requires
        record_fits(out::wms_view(t.1@)),
    ensures
        s@ == record_text(t.0 as nat, perm@, out::wms_view(t.1@)),
{
    let ghost jv = out::wms_view(t.1@);
    let spellwords = specifier_to_wordspells(t.1);
    assert(out::spells_fit(spellwords@)) by {
        assert forall|i: int| 0 <= i < spellwords@.len() implies (
        #[trigger] spellwords@[i]).0@.len() <= i32::MAX by {
            assert(out::sws_view(spellwords@)[i].0 == spellwords@[i].0@);
        }
    }
    let table = spell_words_dict_tostring(spellwords);
    let mut r = chars_of(record_head(perm, t.0).as_str());
    text::push_all(&mut r, &chars_of(table.as_str()));
    string_of(&r)
}

/// Only the ASCII letters of a text.
pub open spec fn letters_of(s: Seq<char>) -> Seq<char>
    decreases s.len(),
{
    if s.len() == 0 {
        seq![]
    } else {
        letters_of(s.drop_last()) + if text::is_ascii_alpha(s.last()) {
            seq![s.last()]
        } else {
            Seq::<char>::empty()
        }
    }
}

/// What a record tells: on its first line, the score before the first space
/// and the letters of the permutation after it.
pub open spec fn record_of_text(s: Seq<char>) -> (Option<nat>, Option<Seq<char>>) {
    let ls = text::lines(s);
    if ls.len() == 0 {
        (None, None)
    } else {
        let ps = text::pieces(ls[0], ' ');
        (text::usize_of(ps[0]), if ps.len() >= 2 {
            Some(letters_of(ps[1]))
        } else {
            None
        })
    }
}

/// Reads the score and the permutation of a record.
pub fn read_record(s: &str) -> (r: (Option<usize>, Option<Vec<char>>))
    ensures
        record_of_text(s@) == ((match r.0 {
            Some(n) => Some(n as nat),
            None => None,
        }), (match r.1 {
            Some(v) => Some(v@),
            None => None,
        })),
{
    let ls = lines_of(s);
    if ls.len() == 0 {
        return (None, None);
    }
    let first = chars_of(ls[0].as_str());
    let ps = split_pieces(&first, ' ');
    assert(ps.deep_view().len() > 0);
    assert(ps@.len() == ps.deep_view().len());
    proof {
        text::lemma_chars_deep_view(&ps@[0]);
        assert(ps.deep_view()[0] == ps@[0].deep_view());
    }
    let score = parse_usize(&ps[0]);
    if ps.len() < 2 {
        return (score, None);
    }
    proof {
        text::lemma_chars_deep_view(&ps@[1]);
        assert(ps.deep_view()[1] == ps@[1].deep_view());
    }
    let p = &ps[1];
    let mut letters: Vec<char> = Vec::new();
    let mut i: usize = 0;
    while i < p.len()
        invariant
            i <= p.len(),
            letters@ == letters_of(p@.take(i as int)),
        decreases p.len() - i,
    {
        proof {
            assert(p@.take(i + 1).drop_last() =~= p@.take(i as int));
        }
        if text::is_alpha(p[i]) {
            letters.push(p[i]);
        }
        i = i + 1;
        assert(letters@ =~= letters_of(p@.take(i as int)));
    }
    assert(p@.take(p.len() as int) =~= p@);
    (score, Some(letters))
}

/// Whether two permutations are the same.
pub fn perms_equal(dj: &Vec<char>, dk: &Vec<char>) -> (r: bool)
    ensures
        r == (dj@ == dk@),
{
    if dj.len() != dk.len() {
        return false;
    }
    let mut i: usize = 0;
    while i < dj.len()
        invariant
            dj.len() == dk.len(),
            i <= dj.len(),
            forall|q: int| 0 <= q < i ==> dj@[q] == dk@[q],
        decreases dj.len() - i,
    {
        if dj[i] != dk[i] {
            return false;
        }
        i = i + 1;
    }
    assert(dj@ =~= dk@);
    true
}

/// The line of an archived top entry: its score, if any, a space and its name.
pub open spec fn archive_line(t: (Option<usize>, Seq<char>)) -> Seq<char> {
    (match t.0 {
        Some(v) => text::decimal(v as nat),
        None => Seq::<char>::empty(),
    }) + seq![' '] + t.1
}

/// The archive text of the top entries: one line each, and a final line feed.
pub open spec fn archive_text_of(tops: Seq<(Option<usize>, Seq<char>)>) -> Seq<char> {
    out::join(tops.map_values(|t: (Option<usize>, Seq<char>)| archive_line(t)), seq!['\n']) + seq![
        '\n',
    ]
}

/// The archive text of the top entries, each with its score and name.
pub fn archive_text(tops: &Vec<(Option<usize>, String)>) -> (s: String)
    ensures
        s@ == archive_text_of(tops@.map_values(|t: (Option<usize>, String)| (t.0, t.1@))),
{
    let ghost tv = tops@.map_values(|t: (Option<usize>, String)| (t.0, t.1@));
    let mut ls: Vec<Vec<char>> = Vec::new();
    let mut i: usize = 0;
    while i < tops.len()
        invariant
            i <= tops.len(),
            tv == tops@.map_values(|t: (Option<usize>, String)| (t.0, t.1@)),
            ls.deep_view() == tv.take(i as int).map_values(
                |t: (Option<usize>, Seq<char>)| archive_line(t),
            ),
        decreases tops.len() - i,
    {
        let mut l: Vec<char> = match tops[i].0 {
            Some(v) => decimal_chars(v as u64),
            None => Vec::new(),
        };
        l.push(' ');
        text::push_all(&mut l, &chars_of(tops[i].1.as_str()));
        assert(l@ =~= archive_line(tv[i as int]));
        let ghost d = ls.deep_view();
        proof {
            text::lemma_chars_deep_view(&l);
        }
        ls.push(l);
        assert(ls.deep_view() =~= d.push(archive_line(tv[i as int])));
        i = i + 1;
        assert(tv.take(i as int).map_values(|t: (Option<usize>, Seq<char>)| archive_line(t))
            =~= d.push(archive_line(tv[i - 1])));
    }
    assert(tv.take(tops.len() as int) =~= tv);
    let mut nl: Vec<char> = Vec::new();
    nl.push('\n');
    assert(nl@ =~= seq!['\n']);
    let mut r = out::join_chars(&ls, &nl);
    r.push('\n');
    string_of(&r)
}

/// A bound on what the driver keeps before it saves: where it saves and how
/// many results it holds at most.
pub struct RepeatActionConst {
    pub path: String,
    pub maxstore: usize,
}

/// The driver that works through a stream of items: it converts each item by
/// `action`, and saves the best results under `path` when `duration` has
/// passed or more than `maxstore` results wait.
pub struct RepeatAction<Eq, Write, Read, Sort, Memo, A> {
    pub path: String,
    pub read: Read,
    pub write: Write,
    pub sort: Sort,
    pub memo: Memo,
    pub duration: Duration,
    pub maxstore: usize,
    pub action: A,
    pub eq: Eq,
}

impl<Eq, Write, Read, Sort, Memo, A> RepeatAction<Eq, Write, Read, Sort, Memo, A> {
    /// Where the top entries are archived: the path with `.archive` after it.
    pub fn archive_path(&self) -> (s: String)
        ensures
            s@ == self.path@ + ".archive"@,
    {
        let mut r = chars_of(self.path.as_str());
        text::push_all(&mut r, &chars_of(".archive"));
        string_of(&r)
    }

    /// Where the last item worked on is kept: the path with `.cursor` after it.
    pub fn cursor_path(&self) -> (s: String)
        ensures
            s@ == self.path@ + ".cursor"@,
    {
        let mut r = chars_of(self.path.as_str());
        text::push_all(&mut r, &chars_of(".cursor"));
        string_of(&r)
    }

    /// Whether the waiting results are to be saved now: when the time is up,
    /// or when more than `maxstore` wait.
    pub fn save_due(&self, time_is_up: bool, waiting: usize) -> (r: bool)
        ensures
            r == (time_is_up || self.maxstore < waiting),
    {
        time_is_up || self.maxstore < waiting
    }
}

impl RepeatActionConst {
    /// Whether the waiting results are to be saved now.
    pub fn save_due(&self, time_is_up: bool, waiting: usize) -> (r: bool)
        ensures
            r == (time_is_up || self.maxstore < waiting),
    {
        time_is_up || self.maxstore < waiting
    }
}


/// Reading a record gives back its score and permutation, when the
/// permutation is made of ASCII letters.
pub proof fn lemma_record_roundtrip(score: nat, perm: Seq<char>, j: Seq<(Seq<char>, out::SpecView)>)
    requires
        score <= usize::MAX,
        forall|i: int| 0 <= i < perm.len() ==> text::is_ascii_alpha(#[trigger] perm[i]),
    ensures
        record_of_text(record_text(score, perm, j)) == (Some(score), Some(perm)),
{
    lemma_record_head_roundtrip(score, perm, out::table_text(out::sort_by_spell(out::flip_specified(j))));
}

/// Whatever follows the first line of a record, reading the record gives back
/// the score and the permutation of that line, when the permutation is made of
/// ASCII letters.
pub proof fn lemma_record_head_roundtrip(score: nat, perm: Seq<char>, rest: Seq<char>)
    requires
        score <= usize::MAX,
        forall|i: int| 0 <= i < perm.len() ==> text::is_ascii_alpha(#[trigger] perm[i]),
    ensures
        record_of_text(record_head_text(score, perm) + rest) == (Some(score), Some(perm)),
{
    let d = text::decimal(score);
    text::lemma_usize_of_decimal(score);
    let x = d + seq![' '] + perm;
    assert(!x.contains('\n')) by {
        if x.contains('\n') {
            let i = choose|i: int| 0 <= i < x.len() && x[i] == '\n';
            if i < d.len() {
                assert(text::is_ascii_digit(d[i]));
            } else if i > d.len() {
                assert(x[i] == perm[i - d.len() - 1]);
            }
        }
    }
    let tab = rest;
    assert(record_head_text(score, perm) + rest == x + seq!['\n'] + tab);
    text::lemma_first_line(x, tab);
    if x.len() > 0 {
        assert(x.last() != '\r') by {
            if perm.len() > 0 {
                assert(x.last() == perm[perm.len() - 1]);
            }
        }
    }
    assert(text::strip_cr(x) == x);
    assert(!perm.contains(' ')) by {
        if perm.contains(' ') {
            let i = choose|i: int| 0 <= i < perm.len() && perm[i] == ' ';
            assert(text::is_ascii_alpha(perm[i]));
        }
    }
    assert(!d.contains(' ')) by {
        if d.contains(' ') {
            let i = choose|i: int| 0 <= i < d.len() && d[i] == ' ';
            assert(text::is_ascii_digit(d[i]));
        }
    }
    text::lemma_pieces_sep(d, ' ', perm);
    text::lemma_pieces_word(d, ' ');
    assert(text::pieces(x, ' ') =~= seq![d, perm]);
    lemma_letters_of_letters(perm);
}

proof fn lemma_letters_of_letters(s: Seq<char>)
    requires
        forall|i: int| 0 <= i < s.len() ==> text::is_ascii_alpha(#[trigger] s[i]),
    ensures
        letters_of(s) == s,
    decreases s.len(),
{
    if s.len() > 0 {
        lemma_letters_of_letters(s.drop_last());
        assert(text::is_ascii_alpha(s[s.len() - 1]));
        assert(s.drop_last() + seq![s.last()] =~= s);
    }
}

} // verus!
