use yongkey::kt::path_file_or_dict_prefix_match;
use yongkey::py::{get_shuangpin_tone, py_keys, shuangpin_table_parser, ShuangPinTone, Tone};

fn s(x: &str) -> String {
    x.to_string()
}

#[test]
fn shuangpin_of_a_character() {
    let tables = shuangpin_table_parser(&vec![s("b in"), s("x zh")]);
    assert_eq!(
        get_shuangpin_tone('拼', &tables),
        Some(ShuangPinTone { zi: 'p', mu: 'b', tone: Tone::Tone1 })
    );
    assert_eq!(py_keys('拼', &tables, "vva"), vec!['p', 'b', 'i']);
    assert_eq!(py_keys('a', &tables, "vva"), vec!['v', 'v', 'a']);
    assert_eq!(get_shuangpin_tone('a', &tables), None);
}

#[test]
fn path_prefix_by_component_or_file_name() {
    assert!(path_file_or_dict_prefix_match("spell/xxyx.txt", "xx"));
    assert!(path_file_or_dict_prefix_match("spell/xxyx.txt", "spell"));
    assert!(!path_file_or_dict_prefix_match("spell/xxyx.txt", "sp"));
}
