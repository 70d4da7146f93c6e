use yongkey::chain::{keytocjchar_of_text, keytocjchar_to_file_format};
use yongkey::kt::{
    collect_word_spells, dedup_word_spells, from_word_spells_dict, get_yongdictwordspells,
    to_swap_key_dict,
};
use yongkey::out::{spell_words_dict_tostring, specifier_to_wordspells, SpellWordsEntry, WithMakeWordSpecifier};
use yongkey::py::{ShuangPinTone, Tone};
use yongkey::spell::{
    rulespell_tostring, RuleKey, SpecifySpelling, TargetLenBoundary, WordSpellsLineFormat, YongRule,
    YongSpelling,
};

fn s(x: &str) -> String {
    x.to_string()
}

fn free(x: &str) -> SpecifySpelling {
    SpecifySpelling { spelling: YongSpelling::Free, spell: s(x) }
}

fn cj(x: &str) -> SpecifySpelling {
    SpecifySpelling { spelling: YongSpelling::Cangjie, spell: s(x) }
}

fn spells_of(v: &[SpecifySpelling]) -> Vec<(YongSpelling, String)> {
    v.iter().map(|x| (x.spelling, x.spell.clone())).collect()
}

#[test]
fn layout_file_roundtrip() {
    let m = vec![('q', 'p'), ('a', 'z')];
    assert_eq!(keytocjchar_of_text(&keytocjchar_to_file_format(&m)), m);
    assert_eq!(keytocjchar_of_text("x y z\nab cd\n\n  e f  \n"), vec![('a', 'c'), ('e', 'f')]);
    assert_eq!(keytocjchar_of_text("a b\na c\n"), vec![('a', 'c')]);
}

#[test]
fn swap_file_reads_two_words_per_line() {
    let d = to_swap_key_dict(&vec![s("q p"), s("x"), s("a z extra"), s("q w")]);
    assert_eq!(d, vec![(s("q"), s("w")), (s("a"), s("z"))]);
}

#[test]
fn word_spells_tables() {
    let lines = vec![s("可 h rh"), s("语 sj k dj;"), s("可 x y"), s("bad line")];
    let entries = collect_word_spells(&lines, WordSpellsLineFormat::Free);
    assert_eq!(
        entries,
        vec![(s("可"), vec![s("h")]), (s("语"), vec![s("sj")]), (s("可"), vec![s("x")])]
    );
    let d = from_word_spells_dict("spell/add-short.txt", &lines);
    assert_eq!(d.len(), 2);
    assert_eq!(d[0].0, "可");
    assert_eq!(spells_of(&d[0].1), vec![(YongSpelling::Free, s("x"))]);
    assert_eq!(d[1].0, "语");
    assert_eq!(spells_of(&d[1].1), vec![(YongSpelling::Free, s("sj"))]);
}

#[test]
fn dedup_keeps_first_spellings() {
    let d = vec![(s("好"), vec![cj("vnd"), free("h"), cj("vnd"), free("h"), cj("x")])];
    let r = dedup_word_spells(d);
    assert_eq!(spells_of(&r[0].1), vec![(YongSpelling::Cangjie, s("vnd")), (YongSpelling::Free, s("h")), (YongSpelling::Cangjie, s("x"))]);
}

#[test]
fn merged_dictionaries_group_spellings_by_word() {
    let a = vec![(s("好"), vec![cj("vnd")]), (s("的"), vec![cj("hai")])];
    let b = vec![(s("好"), vec![free("h")])];
    let m = get_yongdictwordspells(vec![a, b]);
    assert_eq!(m.len(), 2);
    assert_eq!(m[0].0, "好");
    assert_eq!(spells_of(&m[0].1), vec![(YongSpelling::Cangjie, s("vnd")), (YongSpelling::Free, s("h"))]);
    assert_eq!(m[1].0, "的");
}

#[test]
fn spell_table_orders_by_length_then_text() {
    let d = vec![(s("ab"), vec![s("w1")]), (s("b"), vec![s("w2"), s("w4")]), (s("aa"), vec![s("w3")])];
    assert_eq!(spell_words_dict_tostring(d), "b w2 w4\naa w3\nab w1\n");
}

#[test]
fn spell_table_lines() {
    let e = SpellWordsEntry { spell: s(""), words: vec![s("x")] };
    assert_eq!(e.to_string(), " x$SPACE\n");
    let f = SpellWordsEntry { spell: s("ab"), words: vec![s("x"), s("y")] };
    assert_eq!(f.to_string(), "ab x y\n");
}

#[test]
fn make_word_entries_come_first_and_words_are_not_repeated() {
    let j = vec![
        (
            s("w1"),
            WithMakeWordSpecifier { specified_for_make_word_spells: vec![s("abc")], other_spells: vec![s("x")] },
        ),
        (
            s("w2"),
            WithMakeWordSpecifier { specified_for_make_word_spells: vec![], other_spells: vec![s("x"), s("x")] },
        ),
    ];
    assert_eq!(
        specifier_to_wordspells(j),
        vec![
            (s("^abc"), vec![s("w1")]),
            (s("x"), vec![s("w1"), s("w2")]),
            (s("abc"), vec![s("w1")]),
        ]
    );
}

#[test]
fn shuangpin_keys_differ_by_tone() {
    let a = ShuangPinTone { zi: 'p', mu: 'b', tone: Tone::Tone1 };
    let b = ShuangPinTone { zi: 'p', mu: 'b', tone: Tone::Tone0 };
    assert_eq!(a.to_string(), "pbi");
    assert_eq!(b.to_string(), "pba");
}

#[test]
fn code_rules() {
    let spell = vec![Err(RuleKey { char_index: -1, key_index: 2 }), Ok(s("x")), Err(RuleKey { char_index: 3, key_index: 1 })];
    assert_eq!(rulespell_tostring(&spell), "p12+x+n31");
    let rule = YongRule { targetlen: 3, boundary: TargetLenBoundary::Equal, spell: spell.clone() };
    assert_eq!(rule.try_into(), Ok(s("code_e3=p12+x+n31")));
    let long = YongRule { targetlen: 2, boundary: TargetLenBoundary::Equal, spell: spell.clone() };
    assert_eq!(long.try_into(), Err("indexes in rulekey is out of range for targetlen"));
    let above = YongRule { targetlen: 2, boundary: TargetLenBoundary::AboveOrEq, spell };
    assert_eq!(above.try_into(), Ok(s("code_a2=p12+x+n31")));
    let bad_key = YongRule {
        targetlen: 9,
        boundary: TargetLenBoundary::AboveOrEq,
        spell: vec![Err(RuleKey { char_index: 1, key_index: 10 })],
    };
    assert!(bad_key.try_into().is_err());
}
