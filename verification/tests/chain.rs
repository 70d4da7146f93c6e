use yongkey::chain::{
    assign_by, best_candidate, charchar_to_swap_dict, eval, extra_scored_text, get_swap_stats,
    is_fluent, keytocjchar_to_file_format, keytocjchar_tostring, leveled_round, log_save_path,
    lowest_score_index, permloop, random_candidates, string_to_keytocjchar, Log, LogError,
};
use yongkey::py::ShuangPinTables;

fn s(x: &str) -> String {
    x.to_string()
}

#[test]
fn layout_line_sorts_pairs() {
    assert_eq!(keytocjchar_tostring(&vec![('b', 'x'), ('a', 'y')]), "ay_bx");
    assert_eq!(keytocjchar_tostring(&vec![]), "");
}

#[test]
fn layout_file_keeps_map_order() {
    assert_eq!(keytocjchar_to_file_format(&vec![('b', 'x'), ('a', 'y')]), "b x\na y\n");
    assert_eq!(keytocjchar_to_file_format(&vec![]), "\n");
}

#[test]
fn layout_text_is_read_with_later_pairs_winning() {
    assert_eq!(string_to_keytocjchar("  ay_bx_c_ab \n"), vec![('a', 'b'), ('b', 'x')]);
    assert_eq!(string_to_keytocjchar(""), vec![]);
}

#[test]
fn layout_roundtrip_gives_the_same_map() {
    let m = vec![('q', 'p'), ('a', 'z'), ('m', 'c')];
    let back = string_to_keytocjchar(&keytocjchar_tostring(&m));
    assert_eq!(back, vec![('a', 'z'), ('m', 'c'), ('q', 'p')]);
}

#[test]
fn swap_dict_of_layout_flips_pairs() {
    let d = charchar_to_swap_dict(&vec![('q', 'p'), ('a', 'z'), ('w', 'p')]);
    assert_eq!(d, vec![(s("p"), s("w")), (s("z"), s("a"))]);
}

#[test]
fn swap_stats_pair_words_two_by_two() {
    let st = get_swap_stats("ab 3 cd x ef 5 g\nab 7\n");
    assert_eq!(st, vec![(s("ab"), 7), (s("ef"), 5)]);
    assert_eq!(get_swap_stats(""), vec![]);
}

#[test]
fn eval_counts_chains_not_mapped_to_two_keys() {
    let stats = vec![(s("ab"), 3), (s("cd"), 4), (s("a"), 5)];
    assert_eq!(eval(&stats, &vec![('a', 'q'), ('b', 'w')]), 9);
    assert_eq!(eval(&stats, &vec![]), 12);
}

#[test]
fn every_pair_is_fluent() {
    assert!(is_fluent('a', 'b'));
    assert!(is_fluent('j', 'k'));
}

#[test]
fn log_line_and_back() {
    let log = Log { score: 12, keytochar: vec![('b', 'x'), ('a', 'y')], yongpaths: vec![s("t1"), s("t2")] };
    let line = log.to_string();
    assert_eq!(line, "12 ay_bx t1 t2");
    let back = Log::try_from(&line).unwrap();
    assert_eq!(back.score, 12);
    assert_eq!(back.keytochar, vec![('a', 'y'), ('b', 'x')]);
    assert_eq!(back.yongpaths, vec![s("t1"), s("t2")]);
    let bare = Log { score: 3, keytochar: vec![('a', 'y')], yongpaths: vec![] };
    assert_eq!(bare.to_string(), "3 ay ");
}

#[test]
fn log_errors() {
    assert_eq!(Log::try_from("").unwrap_err(), LogError::NoScore);
    assert_eq!(Log::try_from("x y").unwrap_err(), LogError::BadScore);
    assert_eq!(Log::try_from("  5  ").unwrap_err(), LogError::NoKeyToChar);
}

#[test]
fn random_layout_pairs_keys_with_all_variables() {
    let keys = vec!['a', 'b', 'c', 'd'];
    let vars = vec!['w', 'x', 'y', 'z'];
    let m = permloop(&keys, &vars);
    let ks: Vec<char> = m.iter().map(|p| p.0).collect();
    let mut vs: Vec<char> = m.iter().map(|p| p.1).collect();
    vs.sort();
    assert_eq!(ks, keys);
    assert_eq!(vs, vars);
}

#[test]
fn assign_by_order() {
    assert_eq!(assign_by(&vec!['a', 'b'], &vec!['x', 'y'], &vec![1, 0]), vec![('a', 'y'), ('b', 'x')]);
}

#[test]
fn best_candidate_is_first_of_smallest_penalty() {
    let stats = vec![(s("xy"), 10)];
    let cands = vec![vec![('a', 'x')], vec![('a', 'x'), ('b', 'y')], vec![('b', 'x'), ('a', 'y')]];
    assert_eq!(best_candidate(&stats, &vec![], &cands), Some((0, vec![('a', 'x'), ('b', 'y')])));
    let tie = vec![vec![('a', 'x')], vec![('b', 'x')]];
    assert_eq!(best_candidate(&stats, &vec![], &tie), Some((10, vec![('a', 'x')])));
    assert_eq!(best_candidate(&stats, &vec![], &vec![]), None);
}

#[test]
fn best_candidate_layout_starts_with_fixed_pairs() {
    let stats = vec![(s("xy"), 10)];
    let got = best_candidate(&stats, &vec![('q', 'p')], &vec![vec![('a', 'x')]]);
    assert_eq!(got, Some((10, vec![('q', 'p'), ('a', 'x')])));
}

#[test]
fn leveled_round_logs_the_best_layout() {
    let stats = vec![(s("xy"), 10)];
    let cands = vec![vec![('a', 'x')], vec![('a', 'x'), ('b', 'y')]];
    let (log, words) = leveled_round(
        &stats,
        &vec![],
        &cands,
        &vec![],
        &ShuangPinTables::new(),
        &vec![],
        &vec![s("t1")],
    )
    .unwrap();
    assert_eq!(log.score, 0);
    assert_eq!(log.keytochar, vec![('a', 'x'), ('b', 'y')]);
    assert_eq!(log.yongpaths, vec![s("t1")]);
    assert!(words.is_empty());
}

#[test]
fn log_save_path_sorts_tables() {
    let log = Log { score: 1, keytochar: vec![('b', 'x'), ('a', 'y')], yongpaths: vec![s("t2"), s("t1")] };
    assert_eq!(log_save_path(&log), "t1_t2-keytochar:ay_bx");
}

#[test]
fn extra_scored_text_puts_head_first() {
    assert_eq!(extra_scored_text("head", vec![]), Some(s("head\n")));
}

#[test]
fn random_candidates_are_layouts_of_all_variables() {
    let keys = vec!['a', 'b', 'c'];
    let vars = vec!['x', 'y', 'z'];
    let cands = random_candidates(&keys, &vars, 4);
    assert_eq!(cands.len(), 4);
    for m in cands.iter() {
        let ks: Vec<char> = m.iter().map(|p| p.0).collect();
        let mut vs: Vec<char> = m.iter().map(|p| p.1).collect();
        vs.sort();
        assert_eq!(ks, keys);
        assert_eq!(vs, vars);
    }
    assert!(random_candidates(&keys, &vars, 0).is_empty());
}

#[test]
fn lowest_score_takes_the_first_of_equals() {
    let log = |score: usize| Log { score, keytochar: vec![], yongpaths: vec![] };
    let rounds = vec![(log(7), 0u8), (log(3), 1), (log(5), 2), (log(3), 3)];
    assert_eq!(lowest_score_index(&rounds), Some(1));
    let none: Vec<(Log, u8)> = vec![];
    assert_eq!(lowest_score_index(&none), None);
}
