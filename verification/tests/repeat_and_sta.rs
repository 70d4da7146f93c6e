use std::time::Duration;
use yongkey::parser::YongDef;
use yongkey::py::ShuangPinTables;
use yongkey::repeat::{
    archive_text, perm_record, perms_equal, read_record, record_head, word_withspecifiers, RepeatAction,
    RepeatActionConst,
};
use yongkey::sta::{
    count_chain, count_chain_lines, display_hashmap, double_words_by_len, double_words_by_len_vec,
};

fn s(x: &str) -> String {
    x.to_string()
}

#[test]
fn record_line_and_back() {
    let rec = perm_record(&vec!['a', 'b'], (3, vec![]));
    assert_eq!(rec, "3 ab\n");
    assert_eq!(read_record(&rec), (Some(3), Some(vec!['a', 'b'])));
}

#[test]
fn record_reading_edges() {
    assert_eq!(read_record(""), (None, None));
    assert_eq!(read_record("x"), (None, None));
    assert_eq!(read_record("7 a-b c\nmore"), (Some(7), Some(vec!['a', 'b'])));
    assert_eq!(read_record("q zz"), (None, Some(vec!['z', 'z'])));
}

#[test]
fn permutations_compare_by_keys() {
    assert!(perms_equal(&vec!['a', 'b'], &vec!['a', 'b']));
    assert!(!perms_equal(&vec!['a', 'b'], &vec!['b', 'a']));
    assert!(!perms_equal(&vec!['a'], &vec!['a', 'b']));
}

#[test]
fn archive_lines() {
    let tops = vec![(Some(3), s("ab")), (None, s("cd"))];
    assert_eq!(archive_text(&tops), "3 ab\n cd\n");
    assert_eq!(archive_text(&vec![]), "\n");
}

#[test]
fn driver_paths_and_saving() {
    let r = RepeatAction {
        path: s("runs/p"),
        read: (),
        write: (),
        sort: (),
        memo: (),
        duration: Duration::from_secs(1),
        maxstore: 3,
        action: (),
        eq: (),
    };
    assert_eq!(r.archive_path(), "runs/p.archive");
    assert_eq!(r.cursor_path(), "runs/p.cursor");
    assert!(r.save_due(false, 4));
    assert!(!r.save_due(false, 3));
    assert!(r.save_due(true, 0));
    let c = RepeatActionConst { path: s("p"), maxstore: 1 };
    assert!(c.save_due(false, 2));
    assert!(!c.save_due(false, 1));
}

#[test]
fn scoring_an_empty_dictionary() {
    let (n, j) = word_withspecifiers(&vec![('a', 'b')], &vec![], &ShuangPinTables::new(), &vec![]);
    assert_eq!(n, 0);
    assert!(j.is_empty());
}

fn spells(n: usize) -> Vec<String> {
    (0..n).map(|i| format!("w{}", i)).collect()
}

#[test]
fn doubles_by_length_count_later_spells_at_the_level() {
    let d = vec![(s("ab"), spells(2)), (s("ef"), spells(2)), (s("x"), spells(3))];
    assert_eq!(double_words_by_len(d.clone(), 2), vec![(2, 1), (1, 1)]);
    assert_eq!(double_words_by_len_vec(d, 2), vec![1, 1]);
    let w = vec![(s("é"), spells(1))];
    assert_eq!(double_words_by_len(w, 0), vec![(2, 1)]);
}

#[test]
fn statistics_in_order() {
    assert_eq!(display_hashmap(vec![(2, 1), (1, 5), (1, 3)]), vec![(1, 3), (1, 5), (2, 1)]);
}

fn def(spell: &str) -> YongDef {
    YongDef { spell: s(spell), words: vec![] }
}

#[test]
fn chains_count_under_the_chain_or_its_reverse() {
    let defs = vec![def("xab"), def("xba"), def("xab"), def("xé"), def("xc")];
    let h = count_chain(1, &defs);
    assert_eq!(
        h,
        vec![(s("ab"), vec![(s("ab"), 2), (s("ba"), 1)]), (s("é"), vec![(s("é"), 1)])]
    );
}

#[test]
fn chain_count_lines_in_order_and_sorted() {
    let count = vec![
        (s("ab"), vec![(s("ab"), 2), (s("ba"), 1)]),
        (s("cd"), vec![(s("cd"), 5)]),
        (s("ef"), vec![(s("fe"), 3)]),
    ];
    assert_eq!(
        count_chain_lines(count.clone(), false),
        vec![s(" ab 2 ba 1 = 3"), s(" cd 5 = 5"), s(" fe 3 = 3")]
    );
    assert_eq!(
        count_chain_lines(count, true),
        vec![s(" cd 5 = 5"), s(" ab 2 ba 1 = 3"), s(" fe 3 = 3")]
    );
    assert_eq!(count_chain_lines(vec![], true), Vec::<String>::new());
}

#[test]
fn record_head_reads_back_whatever_follows() {
    let head = record_head(&vec!['q', 'w'], 42);
    assert_eq!(head, "42 qw\n");
    assert_eq!(read_record(&head), (Some(42), Some(vec!['q', 'w'])));
    let long = head.clone() + "anything at all\nmore";
    assert_eq!(read_record(&long), (Some(42), Some(vec!['q', 'w'])));
}
