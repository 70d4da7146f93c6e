//! Spelling kinds, the xxyx stroke keys, code-rule formatting, and the swap
//! dictionaries that permute Cangjie keys over the keyboard.
use crate::parser::{self, read_line_alpha_entry};
use crate::text::{self, chars_of, decimal_chars, push_all, str_then, string_of};
use vstd::prelude::*;

verus! {

#[derive(Debug, Clone, Copy, PartialEq, Eq, Structural, Hash)]
pub enum YongSpelling {
    Xxyx,
    Cangjie,
    Free,
}

pub enum WordSpellsLineFormat {
    AddShorter,
    Free,
}

/// A spelling of a word, with the scheme that it belongs to.
#[derive(Debug, Clone)]
pub struct SpecifySpelling {
    pub spelling: YongSpelling,
    pub spell: String,
}

/// The five stroke classes of the xxyx scheme.
#[derive(Debug, Clone, Copy, PartialEq, Eq, Structural)]
pub enum BihuaXxyx {
    Shu,
    Dian,
    Zhe,
    Heng,
    Pie,
}

pub open spec fn stroke_of_vowel(e: char) -> Option<BihuaXxyx> {
    if e == 'a' {
        Some(BihuaXxyx::Shu)
    } else if e == 'e' {
        Some(BihuaXxyx::Dian)
    } else if e == 'u' {
        Some(BihuaXxyx::Zhe)
    } else if e == 'i' {
        Some(BihuaXxyx::Heng)
    } else if e == 'o' {
        Some(BihuaXxyx::Pie)
    } else {
        None
    }
}

pub open spec fn vowel_of_stroke(b: BihuaXxyx) -> char {
    match b {
        BihuaXxyx::Shu => 'a',
        BihuaXxyx::Dian => 'e',
        BihuaXxyx::Zhe => 'u',
        BihuaXxyx::Heng => 'i',
        BihuaXxyx::Pie => 'o',
    }
}

/// The key of the last line of the xxyx chain table whose value is `key`.
pub open spec fn chain_lookup(lines: Seq<Seq<char>>, key: Seq<char>) -> Option<char>
    decreases lines.len(),
{
    if lines.len() == 0 {
        None
    } else {
        let l = lines.last();
        let n = text::run_len(l.skip(1), text::CharClass::SpaceTab);
        if l.len() > 0 && 'a' <= l[0] <= 'z' && n > 0 && l.skip((1 + n) as int) == key {
            Some(l[0])
        } else {
            chain_lookup(lines.drop_last(), key)
        }
    }
}

impl BihuaXxyx {
    /// The stroke that a vowel key stands for.
    pub fn from_aeuio(e: char) -> (r: Option<Self>)
        ensures
            r == stroke_of_vowel(e),
    {
        match e {
            'a' => Some(Self::Shu),
            'e' => Some(Self::Dian),
            'u' => Some(Self::Zhe),
            'i' => Some(Self::Heng),
            'o' => Some(Self::Pie),
            _ => None,
        }
    }

    /// The vowel key of the stroke.
    pub fn to_aeuio(&self) -> (c: char)
        ensures
            c == vowel_of_stroke(*self),
            stroke_of_vowel(c) == Some(*self),
    {
        match self {
            Self::Shu => 'a',
            Self::Dian => 'e',
            Self::Zhe => 'u',
            Self::Heng => 'i',
            Self::Pie => 'o',
        }
    }

    /// The key that the stroke pair `self`, `s` chains to, from the lines of the
    /// xxyx chain table (letter key, spaces, the two vowel keys).
    pub fn chain_as(&self, s: Self, lines: &Vec<String>) -> (c: char)
        requires
            chain_lookup(
                text::strs(lines@),
                seq![vowel_of_stroke(*self), vowel_of_stroke(s)],
            ) is Some,
        ensures
            Some(c) == chain_lookup(
                text::strs(lines@),
                seq![vowel_of_stroke(*self), vowel_of_stroke(s)],
            ),
    {
        let mut key: Vec<char> = Vec::new();
        key.push(self.to_aeuio());
        key.push(s.to_aeuio());
        let ghost k = seq![vowel_of_stroke(*self), vowel_of_stroke(s)];
        assert(key@ =~= k);
        let mut i = lines.len();
        assert(text::strs(lines@).take(i as int) =~= text::strs(lines@));
        while i > 0
            invariant
                i <= lines.len(),
                key@ == k,
                k == seq![vowel_of_stroke(*self), vowel_of_stroke(s)],
                chain_lookup(text::strs(lines@), k) == chain_lookup(
                    text::strs(lines@).take(i as int),
                    k,
                ),
            decreases i,
        {
            proof {
                assert(text::strs(lines@).take(i as int).drop_last() =~= text::strs(lines@).take(
                    i - 1,
                ));
                assert(text::strs(lines@).take(i as int).last() == lines@[i - 1]@);
            }
            let l = lines[i - 1].clone();
            match read_line_alpha_entry(l) {
                Some(e) => {
                    let v = chars_of(e.value.as_str());
                    if vec_eq(&v, &key) {
                        return e.key;
                    }
                },
                None => {},
            }
            i = i - 1;
        }
        proof {
            assert(text::strs(lines@).take(0) =~= Seq::<Seq<char>>::empty());
        }
        // unreachable: the requirement promises an entry
        'q'
    }
}

/// Equality of two character vectors.
pub fn vec_eq(a: &Vec<char>, b: &Vec<char>) -> (r: bool)
    ensures
        r == (a@ == b@),
{
    if a.len() != b.len() {
        return false;
    }
    let mut i: usize = 0;
    while i < a.len()
        invariant
            a.len() == b.len(),
            i <= a.len(),
            forall|j: int| 0 <= j < i ==> a@[j] == b@[j],
        decreases a.len() - i,
    {
        if a[i] != b[i] {
            return false;
        }
        i = i + 1;
    }
    assert(a@ =~= b@);
    true
}

/// `p`, then the character and key numbers.
pub open spec fn p_code(charnth: nat, keynth: nat) -> Seq<char> {
    seq!['p'] + text::decimal(charnth) + text::decimal(keynth)
}

/// `+p`, then the character and key numbers.
pub open spec fn plus_code(charnth: nat, keynth: nat) -> Seq<char> {
    seq!['+'] + p_code(charnth, keynth)
}

pub fn pformat(charnth: u32, keynth: u32) -> (s: String)
    ensures
        s@ == p_code(charnth as nat, keynth as nat),
{
    let mut v: Vec<char> = Vec::new();
    v.push('p');
    push_all(&mut v, &decimal_chars(charnth as u64));
    push_all(&mut v, &decimal_chars(keynth as u64));
    assert(v@ =~= p_code(charnth as nat, keynth as nat));
    string_of(&v)
}

pub fn plusformat(charnth: u32, keynth: u32) -> (s: String)
    ensures
        s@ == plus_code(charnth as nat, keynth as nat),
{
    let mut v: Vec<char> = Vec::new();
    v.push('+');
    push_all(&mut v, &chars_of(pformat(charnth, keynth).as_str()));
    assert(v@ =~= plus_code(charnth as nat, keynth as nat));
    string_of(&v)
}

/// The codes of the last three keys of the `nth` character's spelling of length `spellen`.
pub fn code_py(spellen: u32, nth: u32) -> (r: Vec<String>)
    requires
        spellen >= 2,
    ensures
        text::strs(r@) == seq![
            plus_code(nth as nat, (spellen - 2) as nat),
            plus_code(nth as nat, (spellen - 1) as nat),
            plus_code(nth as nat, spellen as nat),
        ],
{
    let mut r: Vec<String> = Vec::new();
    r.push(plusformat(nth, spellen - 2));
    r.push(plusformat(nth, spellen - 1));
    r.push(plusformat(nth, spellen));
    assert(text::strs(r@) =~= seq![
        plus_code(nth as nat, (spellen - 2) as nat),
        plus_code(nth as nat, (spellen - 1) as nat),
        plus_code(nth as nat, spellen as nat),
    ]);
    r
}

/// The head rule of a word of `wordlen` characters: defined for two-character words.
pub fn code_head(wordlen: u32) -> (s: String)
    ensures
        s@ == (if wordlen == 2 {
            "p11+p12+p21+p22+p23+p13"@
        } else {
            Seq::<char>::empty()
        }),
{
    if wordlen == 2 {
        String::from_str("p11+p12+p21+p22+p23+p13")
    } else {
        String::new()
    }
}

/// The codes of keys 4 to `spellen - 4` of the `charnth` character: the middle
/// of a spelling of at least 9 keys.
pub open spec fn mid_codes(charnth: nat, n: nat) -> Seq<char>
    decreases n,
{
    if n == 0 {
        seq![]
    } else {
        mid_codes(charnth, (n - 1) as nat) + plus_code(charnth, (n - 1 + 4) as nat)
    }
}

pub fn code_mid(spellen: u32, charnth: u32) -> (s: String)
    requires
        spellen >= 3,
    ensures
        s@ == (if spellen < 9 {
            Seq::<char>::empty()
        } else {
            mid_codes(charnth as nat, (spellen - 8) as nat)
        }),
{
    if spellen < 9 {
        return String::new();
    }
    let mut v: Vec<char> = Vec::new();
    let mut f: u32 = 0;
    while f < spellen - 8
        invariant
            spellen >= 9,
            f <= spellen - 8,
            v@ == mid_codes(charnth as nat, f as nat),
        decreases spellen - 8 - f,
    {
        push_all(&mut v, &chars_of(plusformat(charnth, f + 4).as_str()));
        f = f + 1;
    }
    string_of(&v)
}


/// A key of a code rule: the character it is taken from (counted from the
/// end when negative) and the place of the key in that character's spelling.
#[derive(Debug, Clone, Copy)]
pub struct RuleKey {
    pub char_index: i8,
    pub key_index: u8,
}

/// How a code rule's target length bounds the words it codes.
#[derive(Debug, Clone, Copy)]
pub enum TargetLenBoundary {
    Equal,
    AboveOrEq,
}

/// The parts of a rule's spell: literal text, or a key.
pub type RuleSpell = Vec<Result<String, RuleKey>>;

/// A code rule: words of the target length (or longer) are coded by the spell.
pub struct YongRule {
    pub targetlen: u8,
    pub boundary: TargetLenBoundary,
    pub spell: RuleSpell,
}

pub open spec fn abs_i8(x: i8) -> nat {
    if x < 0 {
        (-x) as nat
    } else {
        x as nat
    }
}

/// The text of one part of a rule's spell: a key is `p` (counted from the end)
/// or `n`, the character's distance, and the key's place.
pub open spec fn rule_item_text(item: Result<String, RuleKey>) -> Seq<char> {
    match item {
        Ok(s) => s@,
        Err(k) => (if k.char_index < 0 {
            seq!['p']
        } else {
            seq!['n']
        }) + text::decimal(abs_i8(k.char_index)) + text::decimal(k.key_index as nat),
    }
}

/// The text of a rule's spell: its parts joined by `+`.
pub open spec fn rulespell_text(items: Seq<Result<String, RuleKey>>) -> Seq<char> {
    crate::out::join(items.map_values(|i: Result<String, RuleKey>| rule_item_text(i)), seq!['+'])
}

/// No key of the spell counts the character `i8::MIN` places away.
pub open spec fn rule_keys_fit(items: Seq<Result<String, RuleKey>>) -> bool {
    forall|i: int| 0 <= i < items.len() ==> (#[trigger] items[i] matches Err(k) ==> k.char_index != i8::MIN)
}

fn abs_u8(x: i8) -> (r: u8)
    requires
        x != i8::MIN,
    ensures
        r as nat == abs_i8(x),
{
    if x < 0 {
        (-x) as u8
    } else {
        x as u8
    }
}

/// The text of a rule's spell.
pub fn rulespell_tostring(rulespell: &RuleSpell) -> (s: String)
    requires
        rule_keys_fit(rulespell@),
    ensures
        s@ == rulespell_text(rulespell@),
{
    let mut parts: Vec<Vec<char>> = Vec::new();
    let mut i: usize = 0;
    while i < rulespell.len()
        invariant
            i <= rulespell.len(),
            rule_keys_fit(rulespell@),
            parts.deep_view() == rulespell@.take(i as int).map_values(
                |x: Result<String, RuleKey>| rule_item_text(x),
            ),
        decreases rulespell.len() - i,
    {
        let part: Vec<char> = match &rulespell[i] {
            Ok(s) => chars_of(s.as_str()),
            Err(key) => {
                assert(rulespell@[i as int] matches Err(k) ==> k.char_index != i8::MIN);
                let mut v: Vec<char> = Vec::new();
                v.push(
                    if key.char_index < 0 {
                        'p'
                    } else {
                        'n'
                    },
                );
                push_all(&mut v, &decimal_chars(abs_u8(key.char_index) as u64));
                push_all(&mut v, &decimal_chars(key.key_index as u64));
                v
            },
        };
        assert(part@ =~= rule_item_text(rulespell@[i as int]));
        let ghost d = parts.deep_view();
        proof {
            text::lemma_chars_deep_view(&part);
        }
        parts.push(part);
        assert(parts.deep_view() =~= d.push(rule_item_text(rulespell@[i as int])));
        i = i + 1;
        assert(rulespell@.take(i as int).map_values(|x: Result<String, RuleKey>| rule_item_text(x))
            =~= d.push(rule_item_text(rulespell@[i - 1])));
    }
    assert(rulespell@.take(rulespell.len() as int) =~= rulespell@);
    let mut plus: Vec<char> = Vec::new();
    plus.push('+');
    assert(plus@ =~= seq!['+']);
    string_of(&crate::out::join_chars(&parts, &plus))
}

/// Every key of the rule is within its target length (unless it bounds
/// longer words) and names one of the first ten keys.
pub open spec fn rule_ok(targetlen: u8, boundary: TargetLenBoundary, items: Seq<
    Result<String, RuleKey>,
>) -> bool {
    forall|i: int|
        0 <= i < items.len() ==> (#[trigger] items[i] matches Err(k) ==> (match boundary {
            TargetLenBoundary::AboveOrEq => true,
            TargetLenBoundary::Equal => abs_i8(k.char_index) <= targetlen,
        }) && k.key_index <= 9)
}

/// The line of a rule: `code_`, `a` (or longer) or `e` (exactly), the target
/// length, `=` and the spell.
pub open spec fn rule_line(targetlen: u8, boundary: TargetLenBoundary, items: Seq<
    Result<String, RuleKey>,
>) -> Seq<char> {
    "code_"@ + (match boundary {
        TargetLenBoundary::AboveOrEq => seq!['a'],
        TargetLenBoundary::Equal => seq!['e'],
    }) + text::decimal(targetlen as nat) + seq!['='] + rulespell_text(items)
}

impl YongRule {
    /// The line of the rule, or the complaint that a key lies out of range.
    pub fn try_into(self) -> (r: Result<String, &'static str>)
        requires
            rule_keys_fit(self.spell@),
        ensures
            match r {
                Ok(s) => rule_ok(self.targetlen, self.boundary, self.spell@) && s@ == rule_line(
                    self.targetlen,
                    self.boundary,
                    self.spell@,
                ),
                Err(e) => !rule_ok(self.targetlen, self.boundary, self.spell@) && e@
                    == "indexes in rulekey is out of range for targetlen"@,
            },
    {
        let mut i: usize = 0;
        while i < self.spell.len()
            invariant
                i <= self.spell.len(),
                rule_keys_fit(self.spell@),
                forall|q: int|
                    0 <= q < i ==> (#[trigger] self.spell@[q] matches Err(k) ==> (match self.boundary {
                        TargetLenBoundary::AboveOrEq => true,
                        TargetLenBoundary::Equal => abs_i8(k.char_index) <= self.targetlen,
                    }) && k.key_index <= 9),
            decreases self.spell.len() - i,
        {
            match &self.spell[i] {
                Ok(_) => {},
                Err(key) => {
                    assert(self.spell@[i as int] matches Err(k) ==> k.char_index != i8::MIN);
                    let within = match self.boundary {
                        TargetLenBoundary::AboveOrEq => true,
                        TargetLenBoundary::Equal => abs_u8(key.char_index) <= self.targetlen,
                    };
                    if !(within && key.key_index <= 9) {
                        return Err("indexes in rulekey is out of range for targetlen");
                    }
                },
            }
            i = i + 1;
        }
        let mut r = chars_of("code_");
        r.push(
            match self.boundary {
                TargetLenBoundary::AboveOrEq => 'a',
                TargetLenBoundary::Equal => 'e',
            },
        );
        push_all(&mut r, &decimal_chars(self.targetlen as u64));
        r.push('=');
        push_all(&mut r, &chars_of(rulespell_tostring(&self.spell).as_str()));
        Ok(string_of(&r))
    }
}

} // verus!
