//! Finger-related facts about the QWERTY keyboard: which keys the left hand
//! types, and which key pairs type fluently.
use crate::text::{self, chars_of, char_string};
use vstd::prelude::*;

verus! {

/// The keys of the left hand.
pub open spec fn left_key(key: char) -> bool {
    key == 'q' || key == 'w' || key == 'e' || key == 'r' || key == 't' || key == 'a' || key == 's'
        || key == 'd' || key == 'f' || key == 'g' || key == 'z' || key == 'x' || key == 'c' || key
        == 'b'
}

/// The key is typed by the left hand (one of `qwertasdfgzxcb`).
pub fn is_left_key(key: char) -> (b: bool)
    ensures
        b == left_key(key),
{
    key == 'q' || key == 'w' || key == 'e' || key == 'r' || key == 't' || key == 'a' || key == 's'
        || key == 'd' || key == 'f' || key == 'g' || key == 'z' || key == 'x' || key == 'c' || key
        == 'b'
}

/// The first two characters of each line that has at least two.
pub open spec fn fluent_pairs(lines: Seq<Seq<char>>) -> Seq<Seq<char>>
    decreases lines.len(),
{
    if lines.len() == 0 {
        seq![]
    } else {
        let prev = fluent_pairs(lines.drop_last());
        let l = lines.last();
        if l.len() >= 2 {
            prev.push(seq![l[0], l[1]])
        } else {
            prev
        }
    }
}

/// The fluent key pairs listed in the lines of a fluency file.
pub fn fluent_list(lines: &Vec<String>) -> (r: Vec<String>)
    ensures
        text::strs(r@) == fluent_pairs(text::strs(lines@)),
{
    let mut r: Vec<String> = Vec::new();
    let mut i: usize = 0;
    while i < lines.len()
        invariant
            i <= lines.len(),
            text::strs(r@) == fluent_pairs(text::strs(lines@).take(i as int)),
        decreases lines.len() - i,
    {
        proof {
            assert(text::strs(lines@).take(i + 1).drop_last() =~= text::strs(lines@).take(
                i as int,
            ));
        }
        let cs = chars_of(lines[i].as_str());
        if cs.len() >= 2 {
            let mut s = char_string(cs[0]);
            s.append(char_string(cs[1]).as_str());
            assert(s@ =~= seq![cs@[0], cs@[1]]);
            let ghost old_r = text::strs(r@);
            r.push(s);
            assert(text::strs(r@) =~= old_r.push(seq![cs@[0], cs@[1]]));
        }
        i = i + 1;
    }
    assert(text::strs(lines@).take(lines.len() as int) =~= text::strs(lines@));
    r
}

/// The key runs that are hard to type one after the other, with the keys of
/// the hand that types them.
pub fn not_fluent_pairs() -> (r: Vec<(String, String)>)
    ensures
        r@.len() == 2,
        r@[0].0@ == "qtagb"@,
        r@[0].1@ == "qwertasdfgzxcb"@,
        r@[1].0@ == "yph"@,
        r@[1].1@ == "yuiophjlknmv"@,
{
    let mut r: Vec<(String, String)> = Vec::new();
    r.push((String::from_str("qtagb"), String::from_str("qwertasdfgzxcb")));
    r.push((String::from_str("yph"), String::from_str("yuiophjlknmv")));
    r
}

} // verus!
