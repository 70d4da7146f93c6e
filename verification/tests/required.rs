use yongkey::text::lines_of;
use yongkey::util::sort_groupby;

#[test]
fn lines() {
    let s = lines_of("aaaa\nhwllo\n");
    println!("{:?}", s.last());
    assert_eq!(s.last().map(|l| l.as_str()), Some("hwllo"));
    assert_eq!(s.len(), 2);
}

#[test]
fn sg() {
    let v = vec![(5, "hello"), (2, "ai"), (3, "shy"), (2, "hi")];

    let sorted = sort_groupby(v.clone());
    assert_eq!(
        sorted,
        vec![(2, vec!["ai", "hi"]), (3, vec!["shy"]), (5, vec!["hello"])]
    );

    let s: String = v.into_iter().map(|(_i, s)| s.to_string()).collect();
    println!("{}", s);
    assert_eq!(s, "helloaishyhi");
}
