//! Maps from characters to characters (key layouts), kept as vectors of pairs
//! in the order in which their keys first arrived; a later value of a key
//! replaces the earlier one.
use vstd::prelude::*;

verus! {

/// A map from characters to characters.
pub type CharMap = Vec<(char, char)>;

/// Index of the first pair of key `k`.
pub open spec fn cpos(m: Seq<(char, char)>, k: char) -> Option<int>
    decreases m.len(),
{
    if m.len() == 0 {
        None
    } else {
        match cpos(m.drop_last(), k) {
            Some(i) => Some(i),
            None => if m.last().0 == k {
                Some(m.len() - 1)
            } else {
                None
            },
        }
    }
}

/// The value of key `k`.
pub open spec fn cget(m: Seq<(char, char)>, k: char) -> Option<char> {
    match cpos(m, k) {
        Some(i) => Some(m[i].1),
        None => None,
    }
}

/// No key has two pairs.
pub open spec fn cunique(m: Seq<(char, char)>) -> bool {
    forall|i: int, j: int| 0 <= i < j < m.len() ==> #[trigger] m[i].0 != #[trigger] m[j].0
}

/// Sets the value of `k` to `v`: an existing key keeps its place, a new key comes last.
pub open spec fn cput(m: Seq<(char, char)>, k: char, v: char) -> Seq<(char, char)> {
    match cpos(m, k) {
        Some(i) => m.update(i, (k, v)),
        None => m.push((k, v)),
    }
}

/// The map of `pairs`, a later pair of a key replacing an earlier one.
pub open spec fn cput_all(pairs: Seq<(char, char)>) -> Seq<(char, char)>
    decreases pairs.len(),
{
    if pairs.len() == 0 {
        seq![]
    } else {
        cput(cput_all(pairs.drop_last()), pairs.last().0, pairs.last().1)
    }
}

/// The mathematical map of a character map.
pub open spec fn cmap_of(m: Seq<(char, char)>) -> Map<char, char> {
    Map::new(|k: char| cget(m, k) is Some, |k: char| cget(m, k).unwrap())
}

/// Each pair with its two characters exchanged.
pub open spec fn flipped(m: Seq<(char, char)>) -> Seq<(char, char)> {
    m.map_values(|p: (char, char)| (p.1, p.0))
}

pub proof fn lemma_cpos(m: Seq<(char, char)>, k: char)
    ensures
        cpos(m, k) matches Some(i) ==> 0 <= i < m.len() && m[i].0 == k && forall|j: int|
            0 <= j < i ==> #[trigger] m[j].0 != k,
        cpos(m, k) is None ==> forall|j: int| 0 <= j < m.len() ==> #[trigger] m[j].0 != k,
    decreases m.len(),
{
    if m.len() > 0 {
        lemma_cpos(m.drop_last(), k);
        assert forall|j: int| 0 <= j < m.len() - 1 implies #[trigger] m[j] == m.drop_last()[j] by {}
    }
}

pub proof fn lemma_cpos_at(m: Seq<(char, char)>, k: char, i: int)
    requires
        0 <= i < m.len(),
        m[i].0 == k,
        forall|j: int| 0 <= j < i ==> #[trigger] m[j].0 != k,
    ensures
        cpos(m, k) == Some(i),
{
    lemma_cpos(m, k);
}

pub proof fn lemma_cpos_none(m: Seq<(char, char)>, k: char)
    requires
        forall|j: int| 0 <= j < m.len() ==> #[trigger] m[j].0 != k,
    ensures
        cpos(m, k) is None,
{
    lemma_cpos(m, k);
}

/// In a map with each key once, a key's value is the value of any pair of it.
pub proof fn lemma_cget_unique(m: Seq<(char, char)>, i: int)
    requires
        cunique(m),
        0 <= i < m.len(),
    ensures
        cget(m, m[i].0) == Some(m[i].1),
{
    lemma_cpos_at(m, m[i].0, i);
}

/// `cput` keeps keys unique, sets `k`, and leaves the other keys alone.
pub proof fn lemma_cput(m: Seq<(char, char)>, k: char, v: char)
    ensures
        cunique(m) ==> cunique(cput(m, k, v)),
        cget(cput(m, k, v), k) == Some(v),
        forall|q: char| q != k ==> #[trigger] cget(cput(m, k, v), q) == cget(m, q),
{
    lemma_cpos(m, k);
    let r = cput(m, k, v);
    match cpos(m, k) {
        Some(i) => {
            assert forall|j: int| 0 <= j < i implies #[trigger] r[j].0 != k by {
                assert(r[j].0 == m[j].0);
            }
            lemma_cpos_at(r, k, i);
        },
        None => {
            assert forall|j: int| 0 <= j < m.len() implies #[trigger] r[j].0 != k by {
                assert(r[j].0 == m[j].0);
            }
            lemma_cpos_at(r, k, m.len() as int);
        },
    }
    if cunique(m) {
        assert forall|i: int, j: int| 0 <= i < j < r.len() implies #[trigger] r[i].0
            != #[trigger] r[j].0 by {
            if j < m.len() {
                assert(r[i].0 == m[i].0 && r[j].0 == m[j].0);
            }
        }
    }
    assert forall|q: char| q != k implies #[trigger] cget(cput(m, k, v), q) == cget(m, q) by {
        lemma_cpos(m, q);
        lemma_cpos(r, q);
        match cpos(m, q) {
            Some(i) => {
                assert(r[i].0 == q);
                lemma_cpos_at(r, q, i);
            },
            None => {
                assert forall|j: int| 0 <= j < r.len() implies #[trigger] r[j].0 != q by {
                    if j < m.len() {
                        assert(r[j].0 == m[j].0);
                    }
                }
                lemma_cpos_none(r, q);
            },
        }
    }
}

/// The map of pairs has each key once, and its mathematical map is that of
/// inserting the pairs in order.
pub proof fn lemma_cput_all(pairs: Seq<(char, char)>)
    ensures
        cunique(cput_all(pairs)),
    decreases pairs.len(),
{
    if pairs.len() > 0 {
        lemma_cput_all(pairs.drop_last());
        lemma_cput(cput_all(pairs.drop_last()), pairs.last().0, pairs.last().1);
    }
}

/// Index of the first pair of key `k`.
pub fn cfind(m: &Vec<(char, char)>, k: char) -> (r: Option<usize>)
    ensures
        match r {
            Some(i) => cpos(m@, k) == Some(i as int),
            None => cpos(m@, k) is None,
        },
{
    let mut i: usize = 0;
    while i < m.len()
        invariant
            i <= m.len(),
            forall|j: int| 0 <= j < i ==> #[trigger] m@[j].0 != k,
        decreases m.len() - i,
    {
        if m[i].0 == k {
            proof {
                lemma_cpos_at(m@, k, i as int);
            }
            return Some(i);
        }
        i = i + 1;
    }
    proof {
        lemma_cpos_none(m@, k);
    }
    None
}

/// The value of key `k`.
pub fn cvalue(m: &Vec<(char, char)>, k: char) -> (r: Option<char>)
    ensures
        r == cget(m@, k),
{
    match cfind(m, k) {
        Some(i) => {
            proof {
                lemma_cpos(m@, k);
            }
            Some(m[i].1)
        },
        None => None,
    }
}

/// Sets the value of key `k` to `v`.
pub fn cinsert(m: &mut CharMap, k: char, v: char)
    ensures
        final(m)@ == cput(old(m)@, k, v),
{
    match cfind(m, k) {
        Some(i) => {
            proof {
                lemma_cpos(m@, k);
            }
            let ghost m0 = m@;
            let _ = m.remove(i);
            m.insert(i, (k, v));
            assert(m@ =~= m0.update(i as int, (k, v)));
        },
        None => {
            m.push((k, v));
        },
    }
}

/// The map of `pairs`, a later pair of a key replacing an earlier one
/// (`HashMap::from_iter`).
pub fn cmap_from(pairs: &Vec<(char, char)>) -> (r: CharMap)
    ensures
        r@ == cput_all(pairs@),
        cunique(r@),
{
    let mut r: CharMap = Vec::new();
    let mut i: usize = 0;
    while i < pairs.len()
        invariant
            i <= pairs.len(),
            r@ == cput_all(pairs@.take(i as int)),
        decreases pairs.len() - i,
    {
        proof {
            assert(pairs@.take(i + 1).drop_last() =~= pairs@.take(i as int));
        }
        cinsert(&mut r, pairs[i].0, pairs[i].1);
        i = i + 1;
    }
    assert(pairs@.take(pairs.len() as int) =~= pairs@);
    proof {
        lemma_cput_all(pairs@);
    }
    r
}

/// Each pair with its two characters exchanged.
pub fn flip_pairs(m: &Vec<(char, char)>) -> (r: Vec<(char, char)>)
    ensures
        r@ == flipped(m@),
{
    let mut r: Vec<(char, char)> = Vec::new();
    let mut i: usize = 0;
    while i < m.len()
        invariant
            i <= m.len(),
            r@ == flipped(m@.take(i as int)),
        decreases m.len() - i,
    {
        r.push((m[i].1, m[i].0));
        i = i + 1;
        assert(r@ =~= flipped(m@.take(i as int)));
    }
    assert(m@.take(m.len() as int) =~= m@);
    r
}


/// In the map of two runs of pairs, a key of the second run takes its value
/// there; any other key keeps its value from the first.
pub proof fn lemma_cget_concat(a: Seq<(char, char)>, b: Seq<(char, char)>, k: char)
    ensures
        cget(cput_all(a + b), k) == match cget(cput_all(b), k) {
            Some(v) => Some(v),
            None => cget(cput_all(a), k),
        },
    decreases b.len(),
{
    if b.len() == 0 {
        assert(a + b =~= a);
        assert(cput_all(b) =~= Seq::<(char, char)>::empty());
        lemma_cpos(cput_all(b), k);
    } else {
        let b0 = b.drop_last();
        lemma_cget_concat(a, b0, k);
        assert((a + b).drop_last() =~= a + b0);
        assert((a + b).last() == b.last());
        lemma_cput(cput_all(a + b0), b.last().0, b.last().1);
        lemma_cput(cput_all(b0), b.last().0, b.last().1);
    }
}

} // verus!
