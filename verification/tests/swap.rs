use yongkey::out::DictTranslator;
use yongkey::py::ShuangPinTables;
use yongkey::swap::{
    default_swapdictchars, parse_score_perms, perm_action, perm_chunk, perm_dict_text, perm_round,
    perm_specify, pure_perm, random_specialized, perm_swap_table, perm_swap_table_process, restruct_swap_dict,
    scored_perms_tostring, special_name, special_of, swap_table_literal_tostring,
    swap_table_quickcheck_text, swap_table_tostring, SwapDictChars,
};

fn s(x: &str) -> String {
    x.to_string()
}

fn cs(x: &str) -> Vec<char> {
    x.chars().collect()
}

fn sample() -> SwapDictChars {
    SwapDictChars::new("qwerty", &vec![(s("q"), s("p"))], "z", "a")
}

#[test]
fn new_sorts_and_frees_keys() {
    let d = sample();
    assert_eq!(d.allchars, cs("eqrtwy"));
    assert_eq!(d.predefined, vec![('q', 'p')]);
    assert_eq!(d.tochars, cs("eqrtwy"));
    assert_eq!(d.fromchars, cs("ertwy"));
    assert_eq!(d.blacklist_to_from, vec![('a', 'z')]);
}

#[test]
fn index_and_char_by_index() {
    let d = sample();
    assert_eq!(d.index('r'), Some(2));
    assert_eq!(d.index('z'), None);
    assert_eq!(d.char_by_index(0), Some('e'));
    assert_eq!(d.char_by_index(9), None);
}

#[test]
fn restruct_puts_fixed_pairs_last() {
    let d = sample();
    assert_eq!(d.restruct_swap_dict(&cs("12")), vec![('e', '1'), ('r', '2'), ('q', 'p')]);
    assert_eq!(
        restruct_swap_dict(&cs("x"), &vec![('a', 'b')], &cs("ka")),
        vec![('k', 'x'), ('a', 'b')]
    );
    assert_eq!(restruct_swap_dict(&cs("xy"), &vec![('k', 'b')], &cs("ka")), vec![('k', 'b'), ('a', 'y')]);
}

#[test]
fn specify_finds_slot_places() {
    let d = sample();
    let (chars, slots) = d.specify(&vec![(s("ab"), s("erz"))]);
    assert_eq!(chars, cs("ab"));
    assert_eq!(slots, vec![(cs("ab"), vec![0, 2])]);
}

#[test]
fn default_swap_table_blacklists_z_from_a() {
    let d = default_swapdictchars(&vec![]);
    assert_eq!(d.allchars, cs("abcdefghijklmnopqrstuvwxyz"));
    assert_eq!(d.fromchars, cs("abcdefghijklmnopqrstuvwxy"));
    assert_eq!(d.tochars, cs("bcdefghijklmnopqrstuvwxyz"));
}

#[test]
fn rounds_pick_the_best_scores() {
    let r = perm_round(vec![(cs("a"), 5), (cs("b"), 3), (cs("c"), 3)], 2);
    assert_eq!(r.data, vec![(3, cs("b")), (3, cs("c")), (5, cs("a"))]);
    assert_eq!(r.top_score, Some(3));
    assert_eq!(r.efficient, vec![cs("b"), cs("c")]);
    assert!(r.go_on);
    let done = perm_round(vec![(cs("a"), 3)], 3);
    assert!(!done.go_on);
    let empty = perm_round(vec![], 0);
    assert_eq!(empty.top_score, None);
    assert!(empty.efficient.is_empty());
    assert!(empty.go_on);
}

#[test]
fn scored_permutations_text_and_back() {
    let d = vec![(3, cs("ab")), (10, cs("c"))];
    let t = scored_perms_tostring(&d);
    assert_eq!(t, "3\tab\n10\tc\n");
    assert_eq!(parse_score_perms(&t), d);
    assert_eq!(scored_perms_tostring(&vec![]), "\n");
    assert_eq!(
        parse_score_perms("3\tab\nx\tcd\n10\tc\textra\n5\n"),
        vec![(3, cs("ab")), (10, cs("c"))]
    );
}

fn blank(n: usize) -> String {
    std::iter::repeat('\u{3000}').take(n).collect()
}

#[test]
fn keyboard_drawings() {
    let lit = swap_table_literal_tostring(&vec![('q', 'a'), ('w', 'b')]);
    assert_eq!(lit, format!("日月{}\n{}\n{}", blank(9), blank(10), blank(10)));
    let sw = swap_table_tostring(&vec![('a', 'q')]);
    assert_eq!(sw, format!("日{}\n{}\n{}", blank(10), blank(10), blank(10)));
}

#[test]
fn quickcheck_draws_each_permutation() {
    let d = sample();
    let t = swap_table_quickcheck_text(&d, "3\t12\n");
    assert_eq!(t, format!("↓ 3 12\n{}手\n{}\n{}\n", blank(10), blank(10), blank(10)));
}

#[test]
fn specialised_permutations() {
    assert_eq!(perm_specify(&cs("xy"), &vec![(1, 'S')]), Some(cs("xSy")));
    assert_eq!(perm_specify(&cs("xy"), &vec![(1, 'S'), (1, 'T')]), Some(cs("xTy")));
    assert_eq!(perm_specify(&vec![], &vec![(1, 'S')]), None);
}

#[test]
fn special_names_and_arguments() {
    let d = sample();
    assert_eq!(special_name("base", &d, &vec![(s("ba"), s("dc"))]), "base-qp-ab_cd");
    assert_eq!(special_of("mhboin,sdfjkl"), Some((s("mhboin"), s("sdfjkl"))));
    assert_eq!(special_of("ab-cd.ef"), Some((s("ab"), s("cd"))));
    assert_eq!(special_of(",x"), Some((s(""), s("x"))));
    assert_eq!(special_of("abc"), None);
}

#[test]
fn swap_permutations_follow_itertools_order() {
    let t = perm_swap_table(&vec![], Some(2));
    assert_eq!(t.len(), 2);
    assert!(t[0].contains(&(s("n"), s("n"))));
    assert!(t[1].contains(&(s("n"), s("v"))));
    assert!(t[1].contains(&(s("v"), s("n"))));
    let fixed = perm_swap_table(&vec![(s("q"), s("p"))], Some(1));
    assert_eq!(fixed[0].len(), 25);
    assert!(!fixed[0].iter().any(|e| e.0 == "q"));
}

#[test]
fn process_scores_permutations_in_order() {
    let sp = ShuangPinTables::new();
    let v = perm_swap_table_process(&vec![], Ok(3), &vec![], &sp, &vec![]).unwrap();
    assert_eq!(v.len(), 3);
    assert_eq!(v[0].0, cs("qwertyuiopasdfghjklzxcbmnv"));
    assert_eq!(v[1].0, cs("qwertyuiopasdfghjklzxcbmvn"));
    assert_eq!(v[2].0, cs("qwertyuiopasdfghjklzxcbnmv"));
    assert_eq!(v[0].1 .0, 0);
}

#[test]
fn explore_needs_five_permutations() {
    let sp = ShuangPinTables::new();
    let t = DictTranslator::Cjmain;
    assert!(t.explore_swap_and_flip_word_spells(vec![], &vec![], &sp, &vec![], Ok(4)).is_none());
    let (sorted, table) = t.explore_swap_and_flip_word_spells(vec![], &vec![], &sp, &vec![], Ok(5)).unwrap();
    assert_eq!(sorted.len(), 5);
    assert!(table.is_empty());
}

#[test]
fn permutation_actions_on_an_empty_dictionary() {
    let d = sample();
    let sp = ShuangPinTables::new();
    let (n, j) = perm_action(&d, &cs("12"), &vec![], &sp, &vec![]).unwrap();
    assert_eq!(n, 0);
    assert!(j.is_empty());
    assert_eq!(perm_dict_text(&d, &cs("12"), &vec![], &sp, &vec![]), Some(s("")));
}

fn sorted(mut v: Vec<char>) -> Vec<char> {
    v.sort();
    v
}

#[test]
fn pure_perm_reorders_all_items() {
    let items = cs("abcdef");
    let p = pure_perm(&items);
    assert_eq!(sorted(p), items);
    assert!(pure_perm::<char>(&vec![]).is_empty());
}

#[test]
fn random_draw_without_specials_orders_all_keys() {
    let d = sample();
    let v = random_specialized(&d, &vec![], &cs("rt")).unwrap();
    assert_eq!(sorted(v), d.tochars);
}

#[test]
fn random_draw_fills_special_places_with_first_keys() {
    let d = sample();
    // one special with two keys at places 0 and 3; the normal keys fill the rest
    let slots = vec![(cs("xy"), vec![0, 3])];
    let v = random_specialized(&d, &slots, &cs("abcd")).unwrap();
    assert_eq!(v.len(), 6);
    assert_eq!(sorted(vec![v[0], v[3]]), cs("eq"));
    assert_eq!(sorted(vec![v[1], v[2], v[4], v[5]]), cs("abcd"));
    // a special whose places are not as many as its keys takes no part
    let w = random_specialized(&d, &vec![(cs("xy"), vec![0])], &cs("ab")).unwrap();
    assert_eq!(sorted(w), cs("ab"));
    // too few normal keys for the free places
    assert_eq!(random_specialized(&d, &vec![(cs("x"), vec![2])], &cs("a")), None);
}

#[test]
fn perm_chunk_scores_each_draw() {
    let d = sample();
    let sp = ShuangPinTables::new();
    let v = perm_chunk(&d, &vec![], &vec![], &vec![], &sp, &vec![], 3).unwrap();
    assert_eq!(v.len(), 3);
    for (perm, score) in v.iter() {
        assert_eq!(sorted(perm.clone()), d.tochars);
        assert_eq!(*score, 0);
    }
    assert_eq!(perm_chunk(&d, &vec![(cs("x"), vec![2])], &cs("a"), &vec![], &sp, &vec![], 1), None);
}

#[test]
fn special_name_ignores_order_of_specials_and_keys() {
    let d = SwapDictChars::new(
        "qwertyuiopasdfghjklzxcbmnv",
        &vec![(s("b"), s("x")), (s("a"), s("y"))],
        "",
        "",
    );
    let one = special_name("base", &d, &vec![(s("ba"), s("dc")), (s("a"), s("z"))]);
    assert_eq!(one, "base-ay-bx-a_z-ab_cd");
    let two = special_name("base", &d, &vec![(s("a"), s("z")), (s("ab"), s("cd"))]);
    assert_eq!(two, one);
}

#[test]
fn perm_swap_table_gives_every_arrangement_once() {
    let fixed: Vec<(String, String)> = "qwertyuiopasdfghjklzxcb".chars().map(|c| (c.to_string(), s("q"))).collect();
    let all = perm_swap_table(&fixed, Some(10));
    assert_eq!(all.len(), 6);
    for i in 0..all.len() {
        for j in (i + 1)..all.len() {
            assert_ne!(all[i], all[j]);
        }
    }
    assert_eq!(perm_swap_table(&fixed, Some(4)).len(), 4);
}
