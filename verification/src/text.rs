//! Character-level text helpers: conversions between `String` and `Vec<char>`,
//! character classes, maximal runs and tokenisation.
use vstd::prelude::*;

verus! {

/// Rust's `char::is_whitespace`: the Unicode `White_Space` property.
pub open spec fn is_ws(c: char) -> bool {
    ||| c == ' '
    ||| ('\t' <= c && c <= '\r')
    ||| c == '\u{85}'
    ||| c == '\u{a0}'
    ||| c == '\u{1680}'
    ||| ('\u{2000}' <= c && c <= '\u{200a}')
    ||| c == '\u{2028}'
    ||| c == '\u{2029}'
    ||| c == '\u{202f}'
    ||| c == '\u{205f}'
    ||| c == '\u{3000}'
}

pub open spec fn is_ascii_alpha(c: char) -> bool {
    ('a' <= c && c <= 'z') || ('A' <= c && c <= 'Z')
}

pub open spec fn is_ascii_digit(c: char) -> bool {
    '0' <= c && c <= '9'
}

/// The classes of characters that the table formats separate or collect by.
#[derive(Clone, Copy)]
pub enum CharClass {
    /// `char::is_whitespace`
    Whitespace,
    /// space, tab, carriage return, line feed
    MultiSpace,
    /// space and tab
    SpaceTab,
    /// ASCII letters
    AsciiAlpha,
    /// exactly this character
    Just(char),
    /// anything but space, tab, carriage return, line feed
    NonSpace,
    /// ASCII letters and the marks `+ . , ; ^ ' -` of a spelling
    SpellMark,
}

pub open spec fn class_has(k: CharClass, c: char) -> bool {
    match k {
        CharClass::Whitespace => is_ws(c),
        CharClass::MultiSpace => c == ' ' || c == '\t' || c == '\r' || c == '\n',
        CharClass::SpaceTab => c == ' ' || c == '\t',
        CharClass::AsciiAlpha => is_ascii_alpha(c),
        CharClass::Just(d) => c == d,
        CharClass::NonSpace => !(c == ' ' || c == '\t' || c == '\r' || c == '\n'),
        CharClass::SpellMark => is_ascii_alpha(c) || c == '+' || c == '.' || c == ',' || c == ';'
            || c == '^' || c == '\'' || c == '-',
    }
}

pub fn is_whitespace(c: char) -> (b: bool)
    ensures
        b == is_ws(c),
{
    c == ' ' || ('\t' <= c && c <= '\r') || c == '\u{85}' || c == '\u{a0}' || c == '\u{1680}' || (
    '\u{2000}' <= c && c <= '\u{200a}') || c == '\u{2028}' || c == '\u{2029}' || c == '\u{202f}'
        || c == '\u{205f}' || c == '\u{3000}'
}

pub fn is_alpha(c: char) -> (b: bool)
    ensures
        b == is_ascii_alpha(c),
{
    ('a' <= c && c <= 'z') || ('A' <= c && c <= 'Z')
}

pub fn in_class(k: &CharClass, c: char) -> (b: bool)
    ensures
        b == class_has(*k, c),
{
    match k {
        CharClass::Whitespace => is_whitespace(c),
        CharClass::MultiSpace => c == ' ' || c == '\t' || c == '\r' || c == '\n',
        CharClass::SpaceTab => c == ' ' || c == '\t',
        CharClass::AsciiAlpha => is_alpha(c),
        CharClass::Just(d) => c == *d,
        CharClass::NonSpace => !(c == ' ' || c == '\t' || c == '\r' || c == '\n'),
        CharClass::SpellMark => is_alpha(c) || c == '+' || c == '.' || c == ',' || c == ';' || c
            == '^' || c == '\'' || c == '-',
    }
}

/// The characters of a string slice.
pub fn chars_of(s: &str) -> (v: Vec<char>)
    ensures
        v@ == s@,
{
    let n = s.unicode_len();
    let mut v: Vec<char> = Vec::new();
    let mut i: usize = 0;
    while i < n
        invariant
            n == s@.len(),
            i <= n,
            v@ == s@.take(i as int),
        decreases n - i,
    {
        v.push(s.get_char(i));
        i = i + 1;
        assert(v@ =~= s@.take(i as int));
    }
    assert(v@ =~= s@);
    v
}

/// Appends one character (`String::push`).
#[verifier::external_body]
fn push_char(s: &mut String, c: char)
    ensures
        final(s)@ == old(s)@.push(c),
{
    s.push(c);
}

/// The string made of the given characters.
pub fn string_of(v: &Vec<char>) -> (s: String)
    ensures
        s@ == v@,
{
    let mut s = String::new();
    let mut i: usize = 0;
    while i < v.len()
        invariant
            i <= v.len(),
            s@ == v@.take(i as int),
        decreases v.len() - i,
    {
        push_char(&mut s, v[i]);
        i = i + 1;
        assert(s@ =~= v@.take(i as int));
    }
    assert(s@ =~= v@);
    s
}

/// The one-character string of `c`.
pub fn char_string(c: char) -> (s: String)
    ensures
        s@ == seq![c],
{
    let mut s = String::new();
    push_char(&mut s, c);
    assert(s@ =~= seq![c]);
    s
}

pub proof fn lemma_chars_deep_view(v: &Vec<char>)
    ensures
        v.deep_view() == v@,
{
    assert(v.deep_view() =~= v@);
}

/// The views of a sequence of strings.
pub open spec fn strs(v: Seq<String>) -> Seq<Seq<char>> {
    v.map_values(|s: String| s@)
}

/// Converts character vectors to strings.
pub fn strings_of(v: &Vec<Vec<char>>) -> (r: Vec<String>)
    ensures
        strs(r@) == v.deep_view(),
{
    let mut r: Vec<String> = Vec::new();
    let mut i: usize = 0;
    while i < v.len()
        invariant
            i <= v.len(),
            r@.len() == i,
            forall|j: int| 0 <= j < i ==> #[trigger] r@[j]@ == v@[j]@,
        decreases v.len() - i,
    {
        proof { lemma_chars_deep_view(&v[i as int]); }
        r.push(string_of(&v[i]));
        i = i + 1;
    }
    assert forall|j: int| 0 <= j < v.len() implies #[trigger] v.deep_view()[j] == v@[j]@ by {
        lemma_chars_deep_view(&v@[j]);
    }
    assert(strs(r@) =~= v.deep_view());
    r
}

/// Length of the maximal prefix of `s` made of characters of class `k`.
pub open spec fn run_len(s: Seq<char>, k: CharClass) -> nat
    decreases s.len(),
{
    if s.len() > 0 && class_has(k, s[0]) {
        1 + run_len(s.skip(1), k)
    } else {
        0
    }
}

pub proof fn lemma_run_len(s: Seq<char>, k: CharClass, n: int)
    requires
        0 <= n <= s.len(),
        forall|j: int| 0 <= j < n ==> class_has(k, #[trigger] s[j]),
        n == s.len() || !class_has(k, s[n]),
    ensures
        run_len(s, k) == n,
    decreases n,
{
    if n > 0 {
        lemma_run_len(s.skip(1), k, n - 1);
    }
}

/// Length of the maximal run of class `k` starting at index `start` of `s`.
pub fn run_from(s: &Vec<char>, start: usize, k: &CharClass) -> (n: usize)
    requires
        start <= s.len(),
    ensures
        n == run_len(s@.skip(start as int), *k),
        start + n <= s.len(),
{
    let mut i = start;
    while i < s.len() && in_class(k, s[i])
        invariant
            start <= i <= s.len(),
            forall|j: int| start <= j < i ==> class_has(*k, #[trigger] s@[j]),
        decreases s.len() - i,
    {
        i = i + 1;
    }
    proof {
        let t = s@.skip(start as int);
        assert forall|j: int| 0 <= j < i - start implies class_has(*k, #[trigger] t[j]) by {
            assert(t[j] == s@[start + j]);
        }
        lemma_run_len(t, *k, i - start);
    }
    i - start
}

/// Scanning state of a tokenizer: the finished tokens and the token under construction.
pub open spec fn token_state(s: Seq<char>, k: CharClass) -> (Seq<Seq<char>>, Seq<char>)
    decreases s.len(),
{
    if s.len() == 0 {
        (seq![], seq![])
    } else {
        let (done, cur) = token_state(s.drop_last(), k);
        if class_has(k, s.last()) {
            if cur.len() > 0 {
                (done.push(cur), seq![])
            } else {
                (done, seq![])
            }
        } else {
            (done, cur.push(s.last()))
        }
    }
}

/// The maximal non-empty runs of characters outside class `k`, in order
/// (`split_whitespace` for the whitespace class).
pub open spec fn tokens(s: Seq<char>, k: CharClass) -> Seq<Seq<char>> {
    let (done, cur) = token_state(s, k);
    if cur.len() > 0 {
        done.push(cur)
    } else {
        done
    }
}

pub fn split_tokens(s: &Vec<char>, k: &CharClass) -> (r: Vec<Vec<char>>)
    ensures
        r.deep_view() == tokens(s@, *k),
{
    let mut done: Vec<Vec<char>> = Vec::new();
    let mut cur: Vec<char> = Vec::new();
    let mut i: usize = 0;
    while i < s.len()
        invariant
            i <= s.len(),
            (done.deep_view(), cur@) == token_state(s@.take(i as int), *k),
        decreases s.len() - i,
    {
        let c = s[i];
        proof {
            assert(s@.take(i + 1).drop_last() =~= s@.take(i as int));
        }
        if in_class(k, c) {
            if cur.len() > 0 {
                let ghost d = done.deep_view();
                proof { lemma_chars_deep_view(&cur); }
                done.push(cur);
                assert(done.deep_view() =~= d.push(cur@));
                cur = Vec::new();
            }
        } else {
            cur.push(c);
        }
        i = i + 1;
        assert(cur@ == token_state(s@.take(i as int), *k).1);
    }
    assert(s@.take(s.len() as int) =~= s@);
    if cur.len() > 0 {
        let ghost d = done.deep_view();
        proof { lemma_chars_deep_view(&cur); }
        done.push(cur);
        assert(done.deep_view() =~= d.push(cur@));
    }
    done
}

/// Splitting state on every occurrence of `c` (`str::split` with a char):
/// the finished pieces and the piece under construction.
pub open spec fn piece_state(s: Seq<char>, c: char) -> (Seq<Seq<char>>, Seq<char>)
    decreases s.len(),
{
    if s.len() == 0 {
        (seq![], seq![])
    } else {
        let (done, cur) = piece_state(s.drop_last(), c);
        if s.last() == c {
            (done.push(cur), seq![])
        } else {
            (done, cur.push(s.last()))
        }
    }
}

/// `str::split(c)`: always one more piece than there are occurrences of `c`.
pub open spec fn pieces(s: Seq<char>, c: char) -> Seq<Seq<char>> {
    let (done, cur) = piece_state(s, c);
    done.push(cur)
}

pub fn split_pieces(s: &Vec<char>, c: char) -> (r: Vec<Vec<char>>)
    ensures
        r.deep_view() == pieces(s@, c),
{
    let mut done: Vec<Vec<char>> = Vec::new();
    let mut cur: Vec<char> = Vec::new();
    let mut i: usize = 0;
    while i < s.len()
        invariant
            i <= s.len(),
            (done.deep_view(), cur@) == piece_state(s@.take(i as int), c),
        decreases s.len() - i,
    {
        let d = s[i];
        proof {
            assert(s@.take(i + 1).drop_last() =~= s@.take(i as int));
        }
        if d == c {
            let ghost dv = done.deep_view();
            proof { lemma_chars_deep_view(&cur); }
            done.push(cur);
            assert(done.deep_view() =~= dv.push(cur@));
            cur = Vec::new();
        } else {
            cur.push(d);
        }
        i = i + 1;
        assert(cur@ == piece_state(s@.take(i as int), c).1);
    }
    assert(s@.take(s.len() as int) =~= s@);
    let ghost dv = done.deep_view();
    proof { lemma_chars_deep_view(&cur); }
    done.push(cur);
    assert(done.deep_view() =~= dv.push(cur@));
    done
}

/// Number of bytes of the UTF-8 encoding of `c`.
pub open spec fn utf8_len(c: char) -> nat {
    if (c as u32) < 0x80 {
        1
    } else if (c as u32) < 0x800 {
        2
    } else if (c as u32) < 0x10000 {
        3
    } else {
        4
    }
}

/// Number of bytes of the UTF-8 encoding of `s` (`str::len`).
pub open spec fn byte_len(s: Seq<char>) -> nat
    decreases s.len(),
{
    if s.len() == 0 {
        0
    } else {
        byte_len(s.drop_last()) + utf8_len(s.last())
    }
}

pub fn char_byte_len(c: char) -> (n: usize)
    ensures
        n == utf8_len(c),
{
    let u = c as u32;
    if u < 0x80 {
        1
    } else if u < 0x800 {
        2
    } else if u < 0x10000 {
        3
    } else {
        4
    }
}

pub proof fn lemma_byte_len_take_mono(s: Seq<char>, i: int, j: int)
    requires
        0 <= i <= j <= s.len(),
    ensures
        byte_len(s.take(i)) + (j - i) <= byte_len(s.take(j)),
    decreases j - i,
{
    if i < j {
        lemma_byte_len_take_mono(s, i, j - 1);
        assert(s.take(j).drop_last() =~= s.take(j - 1));
    }
}

/// Byte offset `n` of the encoding of `s` falls between two characters.
pub open spec fn is_byte_boundary(s: Seq<char>, n: int) -> bool {
    exists|k: int| 0 <= k <= s.len() && byte_len(#[trigger] s.take(k)) == n
}

/// The number of characters that the first `n` bytes of `s` hold.
pub open spec fn chars_in_bytes(s: Seq<char>, n: int) -> int {
    choose|k: int| 0 <= k <= s.len() && byte_len(#[trigger] s.take(k)) == n
}

pub proof fn lemma_chars_in_bytes(s: Seq<char>, n: int, k: int)
    requires
        0 <= k <= s.len(),
        byte_len(s.take(k)) == n,
    ensures
        chars_in_bytes(s, n) == k,
{
    let c = chars_in_bytes(s, n);
    if c < k {
        lemma_byte_len_take_mono(s, c, k);
    } else if k < c {
        lemma_byte_len_take_mono(s, k, c);
    }
}

/// The character count of the first `n` bytes of `s`, where `n` falls between
/// two characters.
pub fn char_count_at_byte(s: &Vec<char>, n: usize) -> (r: Option<usize>)
    ensures
        r is Some <==> is_byte_boundary(s@, n as int),
        r matches Some(k) ==> k <= s.len() && byte_len(s@.take(k as int)) == n && chars_in_bytes(
            s@,
            n as int,
        ) == k,
{
    let mut i: usize = 0;
    let mut b: usize = 0;
    while i < s.len() && b < n
        invariant
            i <= s.len(),
            b == byte_len(s@.take(i as int)),
            b <= n,
        decreases s.len() - i,
    {
        proof {
            assert(s@.take(i + 1).drop_last() =~= s@.take(i as int));
        }
        let l = char_byte_len(s[i]);
        if l > n - b {
            proof {
                assert forall|k: int| 0 <= k <= s.len() implies byte_len(#[trigger] s@.take(k))
                    != n by {
                    if k <= i {
                        lemma_byte_len_take_mono(s@, k, i as int);
                    } else {
                        lemma_byte_len_take_mono(s@, i + 1, k);
                    }
                }
            }
            return None;
        }
        b = b + l;
        i = i + 1;
    }
    if b == n {
        proof {
            lemma_chars_in_bytes(s@, n as int, i as int);
        }
        Some(i)
    } else {
        proof {
            assert forall|k: int| 0 <= k <= s.len() implies byte_len(#[trigger] s@.take(k)) != n by {
                lemma_byte_len_take_mono(s@, k, i as int);
            }
        }
        None
    }
}

/// Splits `s` at byte offset `n` (`str::split_at`), where `n` falls between characters.
pub fn split_at_byte(s: &Vec<char>, n: usize) -> (r: (Vec<char>, Vec<char>))
    requires
        is_byte_boundary(s@, n as int),
    ensures
        r.0@ == s@.take(chars_in_bytes(s@, n as int)),
        r.1@ == s@.skip(chars_in_bytes(s@, n as int)),
{
    let k = char_count_at_byte(s, n).unwrap();
    let mut a: Vec<char> = Vec::new();
    let mut b: Vec<char> = Vec::new();
    let mut i: usize = 0;
    while i < s.len()
        invariant
            k <= s.len(),
            i <= s.len(),
            a@ == s@.take(if i < k { i as int } else { k as int }),
            b@ == if i < k { Seq::<char>::empty() } else { s@.subrange(k as int, i as int) },
        decreases s.len() - i,
    {
        if i < k {
            a.push(s[i]);
        } else {
            b.push(s[i]);
        }
        i = i + 1;
        assert(a@ =~= s@.take(if i < k { i as int } else { k as int }));
        assert(b@ =~= if i < k { Seq::<char>::empty() } else { s@.subrange(k as int, i as int) });
    }
    assert(b@ =~= s@.skip(k as int));
    (a, b)
}

/// The decimal digit of `d < 10`.
pub open spec fn digit_char(d: nat) -> char {
    if d == 0 {
        '0'
    } else if d == 1 {
        '1'
    } else if d == 2 {
        '2'
    } else if d == 3 {
        '3'
    } else if d == 4 {
        '4'
    } else if d == 5 {
        '5'
    } else if d == 6 {
        '6'
    } else if d == 7 {
        '7'
    } else if d == 8 {
        '8'
    } else {
        '9'
    }
}

/// The decimal numeral of `n`, without leading zeros (`to_string` of an integer).
pub open spec fn decimal(n: nat) -> Seq<char>
    decreases n,
{
    if n < 10 {
        seq![digit_char(n)]
    } else {
        decimal(n / 10).push(digit_char(n % 10))
    }
}

fn digit_of(d: u64) -> (c: char)
    requires
        d < 10,
    ensures
        c == digit_char(d as nat),
{
    match d {
        0 => '0',
        1 => '1',
        2 => '2',
        3 => '3',
        4 => '4',
        5 => '5',
        6 => '6',
        7 => '7',
        8 => '8',
        _ => '9',
    }
}

/// The decimal numeral of `n`.
pub fn decimal_chars(n: u64) -> (r: Vec<char>)
    ensures
        r@ == decimal(n as nat),
    decreases n,
{
    if n < 10 {
        let mut r: Vec<char> = Vec::new();
        r.push(digit_of(n));
        assert(r@ =~= seq![digit_char(n as nat)]);
        r
    } else {
        let mut r = decimal_chars(n / 10);
        r.push(digit_of(n % 10));
        r
    }
}

/// Appends the characters of `b` to `a`.
pub fn push_all(a: &mut Vec<char>, b: &Vec<char>)
    ensures
        final(a)@ == old(a)@ + b@,
{
    let mut i: usize = 0;
    while i < b.len()
        invariant
            i <= b.len(),
            a@ == old(a)@ + b@.take(i as int),
        decreases b.len() - i,
    {
        a.push(b[i]);
        i = i + 1;
        assert(a@ =~= old(a)@ + b@.take(i as int));
    }
    assert(b@.take(b.len() as int) =~= b@);
}

/// The characters of a string literal or slice followed by those of `b`.
pub fn str_then(a: &str, b: &Vec<char>) -> (r: Vec<char>)
    ensures
        r@ == a@ + b@,
{
    let mut r = chars_of(a);
    push_all(&mut r, b);
    r
}

/// Appends a character sequence to a list of them.
pub fn push_seq(v: &mut Vec<Vec<char>>, x: Vec<char>)
    ensures
        final(v).deep_view() == old(v).deep_view().push(x@),
{
    let ghost d = v.deep_view();
    proof {
        lemma_chars_deep_view(&x);
    }
    v.push(x);
    assert(v.deep_view() =~= d.push(x@));
}

/// Appends the sequences of `b` to `a`.
pub fn push_seqs(a: &mut Vec<Vec<char>>, b: &Vec<Vec<char>>)
    ensures
        final(a).deep_view() == old(a).deep_view() + b.deep_view(),
{
    let mut i: usize = 0;
    while i < b.len()
        invariant
            i <= b.len(),
            a.deep_view() == old(a).deep_view() + b.deep_view().take(i as int),
        decreases b.len() - i,
    {
        proof {
            lemma_chars_deep_view(&b@[i as int]);
        }
        push_seq(a, b[i].clone());
        i = i + 1;
        assert(a.deep_view() =~= old(a).deep_view() + b.deep_view().take(i as int));
    }
    assert(b.deep_view().take(b.len() as int) =~= b.deep_view());
}

/// `a` followed by `b`.
pub fn concat(a: &Vec<char>, b: &Vec<char>) -> (r: Vec<char>)
    ensures
        r@ == a@ + b@,
{
    let mut r = a.clone();
    push_all(&mut r, b);
    r
}

pub proof fn lemma_byte_len_one(s: Seq<char>)
    ensures
        byte_len(s) == 1 <==> (s.len() == 1 && (s[0] as u32) < 0x80),
        byte_len(s) >= s.len(),
{
    lemma_byte_len_take_mono(s, 0, s.len() as int);
    assert(s.take(s.len() as int) =~= s);
    assert(s.take(0) =~= Seq::<char>::empty());
    if s.len() == 1 {
        assert(s.drop_last() =~= Seq::<char>::empty());
    }
}

/// The byte length of `s`, but at most 4.
pub fn byte_len_upto4(s: &Vec<char>) -> (r: usize)
    ensures
        r == if byte_len(s@) < 4 {
            byte_len(s@)
        } else {
            4
        },
{
    let mut i: usize = 0;
    let mut b: usize = 0;
    while i < s.len() && b < 4
        invariant
            i <= s.len(),
            b == byte_len(s@.take(i as int)),
        decreases s.len() - i,
    {
        proof {
            assert(s@.take(i + 1).drop_last() =~= s@.take(i as int));
        }
        b = b + char_byte_len(s[i]);
        i = i + 1;
    }
    proof {
        lemma_byte_len_take_mono(s@, i as int, s.len() as int);
        assert(s@.take(s.len() as int) =~= s@);
    }
    if b < 4 {
        b
    } else {
        4
    }
}

/// The byte length of `s` modulo 2^32 (`str::len() as u32`).
pub fn byte_len_u32(s: &Vec<char>) -> (r: u32)
    ensures
        r == byte_len(s@) % 0x1_0000_0000,
{
    let mut i: usize = 0;
    let mut b: u32 = 0;
    while i < s.len()
        invariant
            i <= s.len(),
            b == byte_len(s@.take(i as int)) % 0x1_0000_0000,
        decreases s.len() - i,
    {
        proof {
            assert(s@.take(i + 1).drop_last() =~= s@.take(i as int));
        }
        let l = char_byte_len(s[i]) as u32;
        proof {
            let x = byte_len(s@.take(i as int));
            vstd::arithmetic::div_mod::lemma_add_mod_noop(x as int, l as int, 0x1_0000_0000);
            vstd::arithmetic::div_mod::lemma_mod_twice(l as int, 0x1_0000_0000);
        }
        b = b.wrapping_add(l);
        i = i + 1;
    }
    assert(s@.take(s.len() as int) =~= s@);
    b
}


/// A line without the carriage return that ends it, if any.
pub open spec fn strip_cr(l: Seq<char>) -> Seq<char> {
    if l.len() > 0 && l.last() == '\r' {
        l.drop_last()
    } else {
        l
    }
}

/// `str::lines`: the pieces between line feeds, each line ended by a line feed
/// losing a carriage return before it; no empty last line after a final line feed.
pub open spec fn lines(s: Seq<char>) -> Seq<Seq<char>> {
    let (done, cur) = piece_state(s, '\n');
    done.map_values(|l: Seq<char>| strip_cr(l)) + (if cur.len() > 0 {
        seq![cur]
    } else {
        Seq::<Seq<char>>::empty()
    })
}

/// The lines of a text.
pub fn lines_of(s: &str) -> (r: Vec<String>)
    ensures
        strs(r@) == lines(s@),
{
    let cs = chars_of(s);
    let ps = split_pieces(&cs, '\n');
    let ghost st = piece_state(s@, '\n');
    assert(ps.deep_view() == st.0.push(st.1));
    let mut r: Vec<String> = Vec::new();
    let n = ps.len() - 1;
    let mut i: usize = 0;
    while i < n
        invariant
            n + 1 == ps.len(),
            ps.deep_view() == st.0.push(st.1),
            i <= n,
            strs(r@) == st.0.take(i as int).map_values(|l: Seq<char>| strip_cr(l)),
        decreases n - i,
    {
        let p = &ps[i];
        proof {
            lemma_chars_deep_view(&ps@[i as int]);
            assert(ps.deep_view()[i as int] == ps@[i as int].deep_view());
            assert(st.0.push(st.1).len() == st.0.len() + 1);
            assert(st.0.push(st.1)[i as int] == st.0[i as int]);
        }
        assert(p@ == st.0[i as int]);
        let mut m = p.len();
        if m > 0 && p[m - 1] == '\r' {
            m = m - 1;
        }
        let mut l: Vec<char> = Vec::new();
        let mut j: usize = 0;
        while j < m
            invariant
                m <= p.len(),
                j <= m,
                l@ == p@.take(j as int),
            decreases m - j,
        {
            l.push(p[j]);
            j = j + 1;
            assert(l@ =~= p@.take(j as int));
        }
        assert(l@ =~= strip_cr(p@));
        let ghost r0 = strs(r@);
        r.push(string_of(&l));
        assert(strs(r@) =~= r0.push(l@));
        assert(st.0.take(i + 1).map_values(|l: Seq<char>| strip_cr(l)) =~= st.0.take(
            i as int,
        ).map_values(|l: Seq<char>| strip_cr(l)).push(strip_cr(st.0[i as int])));
        i = i + 1;
    }
    assert(st.0.take(n as int) =~= st.0);
    let last = &ps[n];
    proof {
        lemma_chars_deep_view(&ps@[n as int]);
        assert(ps.deep_view()[n as int] == ps@[n as int].deep_view());
    }
    assert(last@ == st.1);
    if last.len() > 0 {
        r.push(string_of(last));
    }
    assert(strs(r@) =~= lines(s@));
    r
}

/// The value of a numeral of decimal digits.
pub open spec fn digits_value(ds: Seq<char>) -> nat
    decreases ds.len(),
{
    if ds.len() == 0 {
        0
    } else {
        digits_value(ds.drop_last()) * 10 + (ds.last() as nat - '0' as nat) as nat
    }
}

pub open spec fn all_digits(ds: Seq<char>) -> bool {
    forall|i: int| 0 <= i < ds.len() ==> is_ascii_digit(#[trigger] ds[i])
}

/// `usize::from_str_radix(s, 10)`: decimal digits, after an optional `+`, of
/// a value that fits in `usize`.
pub open spec fn usize_of(s: Seq<char>) -> Option<nat> {
    let ds = if s.len() > 0 && s[0] == '+' {
        s.skip(1)
    } else {
        s
    };
    if ds.len() > 0 && all_digits(ds) && digits_value(ds) <= usize::MAX {
        Some(digits_value(ds))
    } else {
        None
    }
}

proof fn lemma_digits_value_mono(ds: Seq<char>, i: int)
    requires
        0 <= i <= ds.len(),
        all_digits(ds),
    ensures
        digits_value(ds.take(i)) <= digits_value(ds),
    decreases ds.len() - i,
{
    if i < ds.len() {
        lemma_digits_value_mono(ds, i + 1);
        assert(ds.take(i + 1).drop_last() =~= ds.take(i));
        assert(is_ascii_digit(ds[i]));
    } else {
        assert(ds.take(i) =~= ds);
    }
}

/// Parses a decimal numeral as `usize::from_str_radix` with radix 10 does.
pub fn parse_usize(s: &Vec<char>) -> (r: Option<usize>)
    ensures
        match r {
            Some(n) => usize_of(s@) == Some(n as nat),
            None => usize_of(s@) is None,
        },
{
    let start: usize = if s.len() > 0 && s[0] == '+' {
        1
    } else {
        0
    };
    let ghost ds = if s@.len() > 0 && s@[0] == '+' {
        s@.skip(1)
    } else {
        s@
    };
    assert(ds =~= s@.skip(start as int));
    if start >= s.len() {
        return None;
    }
    let mut v: usize = 0;
    let mut i: usize = start;
    while i < s.len()
        invariant
            start <= i <= s.len(),
            ds == s@.skip(start as int),
            ds == (if s@.len() > 0 && s@[0] == '+' {
                s@.skip(1)
            } else {
                s@
            }),
            all_digits(ds.take(i - start)),
            v as nat == digits_value(ds.take(i - start)),
        decreases s.len() - i,
    {
        let c = s[i];
        assert(ds.take(i + 1 - start).drop_last() =~= ds.take(i - start));
        assert(ds[i - start] == c);
        if c < '0' || c > '9' {
            assert(!is_ascii_digit(ds[i - start]));
            return None;
        }
        let d: usize = (c as u32 - '0' as u32) as usize;
        match v.checked_mul(10) {
            Some(t) => match t.checked_add(d) {
                Some(w) => {
                    v = w;
                },
                None => {
                    proof {
                        assert(all_digits(ds.take(i + 1 - start)));
                        if all_digits(ds) {
                            lemma_digits_value_mono(ds, i + 1 - start);
                        }
                    }
                    return None;
                },
            },
            None => {
                proof {
                    assert(all_digits(ds.take(i + 1 - start)));
                    if all_digits(ds) {
                        lemma_digits_value_mono(ds, i + 1 - start);
                    }
                }
                return None;
            },
        }
        i = i + 1;
        assert(all_digits(ds.take(i - start)));
    }
    assert(ds.take(s.len() - start) =~= ds);
    Some(v)
}

proof fn lemma_digit_char(d: nat)
    requires
        d < 10,
    ensures
        digit_char(d) as nat - '0' as nat == d,
        is_ascii_digit(digit_char(d)),
{
}

/// Parsing the decimal numeral of `n` gives `n` back.
pub proof fn lemma_usize_of_decimal(n: nat)
    requires
        n <= usize::MAX,
    ensures
        usize_of(decimal(n)) == Some(n),
        all_digits(decimal(n)),
        decimal(n).len() > 0,
        decimal(n)[0] != '+',
    decreases n,
{
    let d = decimal(n);
    if n >= 10 {
        lemma_usize_of_decimal(n / 10);
        lemma_digit_char(n % 10);
        assert(d.drop_last() =~= decimal(n / 10));
        assert(digits_value(d) == digits_value(decimal(n / 10)) * 10 + (n % 10));
        assert(d[0] == decimal(n / 10)[0]);
        assert forall|i: int| 0 <= i < d.len() implies is_ascii_digit(#[trigger] d[i]) by {
            if i < d.len() - 1 {
                assert(d[i] == decimal(n / 10)[i]);
            }
        }
    } else {
        lemma_digit_char(n);
        assert(d.drop_last() =~= Seq::<char>::empty());
        assert(digits_value(d.drop_last()) == 0);
        assert(d.last() == digit_char(n));
    }
    assert(digits_value(d) == n);
}

/// Number of leading whitespace characters.
pub open spec fn leading_ws(s: Seq<char>) -> nat
    decreases s.len(),
{
    if s.len() > 0 && is_ws(s[0]) {
        1 + leading_ws(s.skip(1))
    } else {
        0
    }
}

/// `str::trim_start`.
pub open spec fn trim_start(s: Seq<char>) -> Seq<char> {
    s.skip(leading_ws(s) as int)
}

pub fn trim_start_chars(s: &Vec<char>) -> (r: Vec<char>)
    ensures
        r@ == trim_start(s@),
{
    let mut n: usize = 0;
    assert(s@.skip(0) =~= s@);
    while n < s.len() && is_whitespace(s[n])
        invariant
            n <= s.len(),
            leading_ws(s@) == n + leading_ws(s@.skip(n as int)),
        decreases s.len() - n,
    {
        assert(s@.skip(n as int).skip(1) =~= s@.skip(n + 1));
        n = n + 1;
    }
    let mut r: Vec<char> = Vec::new();
    let mut i: usize = n;
    while i < s.len()
        invariant
            n <= i <= s.len(),
            r@ == s@.subrange(n as int, i as int),
        decreases s.len() - i,
    {
        r.push(s[i]);
        i = i + 1;
        assert(r@ =~= s@.subrange(n as int, i as int));
    }
    assert(s@.subrange(n as int, s.len() as int) =~= s@.skip(n as int));
    r
}


/// Scanning on after a state with no token under construction adds the
/// tokens of the rest.
proof fn lemma_token_state_append(x: Seq<char>, b: Seq<char>, k: CharClass)
    requires
        token_state(x, k).1.len() == 0,
    ensures
        token_state(x + b, k) == (token_state(x, k).0 + token_state(b, k).0, token_state(b, k).1),
    decreases b.len(),
{
    if b.len() == 0 {
        assert(x + b =~= x);
        assert(token_state(x, k).1 =~= Seq::<char>::empty());
        assert(token_state(x, k).0 + Seq::<Seq<char>>::empty() =~= token_state(x, k).0);
    } else {
        lemma_token_state_append(x, b.drop_last(), k);
        assert((x + b).drop_last() =~= x + b.drop_last());
        assert((x + b).last() == b.last());
        let (d, c) = token_state(b.drop_last(), k);
        assert((token_state(x, k).0 + d).push(c) =~= token_state(x, k).0 + d.push(c));
    }
}

/// Tokens on both sides of a separating character.
pub proof fn lemma_tokens_sep(a: Seq<char>, c: char, b: Seq<char>, k: CharClass)
    requires
        class_has(k, c),
    ensures
        tokens(a + seq![c] + b, k) == tokens(a, k) + tokens(b, k),
{
    let x = a + seq![c];
    assert(x.drop_last() =~= a);
    assert(token_state(x, k) == (tokens(a, k), Seq::<char>::empty()));
    lemma_token_state_append(x, b, k);
    let (d, cur) = token_state(b, k);
    if cur.len() > 0 {
        assert((tokens(a, k) + d).push(cur) =~= tokens(a, k) + d.push(cur));
    }
}

/// A word of characters outside the class is one token.
pub proof fn lemma_tokens_word(w: Seq<char>, k: CharClass)
    requires
        w.len() > 0,
        forall|i: int| 0 <= i < w.len() ==> !class_has(k, #[trigger] w[i]),
    ensures
        tokens(w, k) == seq![w],
{
    lemma_token_state_word(w, k);
}

proof fn lemma_token_state_word(w: Seq<char>, k: CharClass)
    requires
        forall|i: int| 0 <= i < w.len() ==> !class_has(k, #[trigger] w[i]),
    ensures
        token_state(w, k) == (Seq::<Seq<char>>::empty(), w),
    decreases w.len(),
{
    if w.len() > 0 {
        lemma_token_state_word(w.drop_last(), k);
        assert(w.drop_last().push(w.last()) =~= w);
    }
}

/// Scanning on after a separator adds the pieces of the rest.
pub proof fn lemma_piece_state_append(x: Seq<char>, b: Seq<char>, c: char)
    requires
        !b.contains(c),
    ensures
        piece_state(x + b, c) == (piece_state(x, c).0, piece_state(x, c).1 + b),
    decreases b.len(),
{
    if b.len() == 0 {
        assert(x + b =~= x);
        assert(piece_state(x, c).1 + b =~= piece_state(x, c).1);
    } else {
        assert(!b.drop_last().contains(c)) by {
            if b.drop_last().contains(c) {
                let i = choose|i: int| 0 <= i < b.drop_last().len() && b.drop_last()[i] == c;
                assert(b[i] == c);
            }
        }
        lemma_piece_state_append(x, b.drop_last(), c);
        assert((x + b).drop_last() =~= x + b.drop_last());
        assert((x + b).last() == b.last());
        assert(b.last() != c) by {
            assert(b[b.len() - 1] == b.last());
        }
        assert((piece_state(x, c).1 + b.drop_last()).push(b.last()) =~= piece_state(x, c).1 + b);
    }
}

/// The pieces of `a`, the separator, then a piece-free `b`.
pub proof fn lemma_pieces_sep(a: Seq<char>, c: char, b: Seq<char>)
    requires
        !b.contains(c),
    ensures
        pieces(a + seq![c] + b, c) == pieces(a, c).push(b),
{
    let x = a + seq![c];
    assert(x.drop_last() =~= a);
    lemma_piece_state_append(x, b, c);
    assert(piece_state(x, c).1 + b =~= b);
}

/// A piece-free text is one piece.
pub proof fn lemma_pieces_word(b: Seq<char>, c: char)
    requires
        !b.contains(c),
    ensures
        pieces(b, c) == seq![b],
{
    lemma_piece_state_append(Seq::<char>::empty(), b, c);
    assert(Seq::<char>::empty() + b =~= b);
    assert(piece_state(Seq::<char>::empty(), c).1 + b =~= b);
}

/// Trimming text that neither begins nor ends with whitespace changes nothing.
pub proof fn lemma_no_leading_ws(s: Seq<char>)
    requires
        s.len() > 0 ==> !is_ws(s[0]),
    ensures
        trim_start(s) == s,
{
    assert(s.skip(0) =~= s);
}


proof fn lemma_piece_state_grows(a: Seq<char>, y: Seq<char>, c: char)
    ensures
        piece_state(a + y, c).0.len() >= piece_state(a, c).0.len(),
        piece_state(a + y, c).0.take(piece_state(a, c).0.len() as int) == piece_state(a, c).0,
    decreases y.len(),
{
    if y.len() == 0 {
        assert(a + y =~= a);
        assert(piece_state(a, c).0.take(piece_state(a, c).0.len() as int) =~= piece_state(a, c).0);
    } else {
        lemma_piece_state_grows(a, y.drop_last(), c);
        assert((a + y).drop_last() =~= a + y.drop_last());
        let d = piece_state(a + y.drop_last(), c).0;
        let n = piece_state(a, c).0.len() as int;
        assert(d.push(piece_state(a + y.drop_last(), c).1).take(n) =~= d.take(n));
    }
}

/// The first line of a text whose first line feed follows `x`.
pub proof fn lemma_first_line(x: Seq<char>, y: Seq<char>)
    requires
        !x.contains('\n'),
    ensures
        lines(x + seq!['\n'] + y).len() > 0,
        lines(x + seq!['\n'] + y)[0] == strip_cr(x),
{
    lemma_piece_state_append(Seq::<char>::empty(), x, '\n');
    assert(Seq::<char>::empty() + x =~= x);
    let a = x + seq!['\n'];
    assert(a.drop_last() =~= x);
    assert(piece_state(Seq::<char>::empty(), '\n').1 + x =~= x);
    assert(piece_state(a, '\n').0 =~= seq![x]);
    lemma_piece_state_grows(a, y, '\n');
    let d = piece_state(a + y, '\n').0;
    assert(d[0] == d.take(1)[0]);
    assert(d[0] == x);
}

} // verus!
