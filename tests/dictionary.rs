use moran_abbrev::dict::{parse_u32, split_chars, text, Dict, Spell, Vocab};

#[test]
fn parse_reads_header_comments_and_fields() {
    let d = Dict::parse("# head\n---\nname: x\n...\n# note\n\n甲\taaaxx\t12\r\n乙\tbbbyy\n丙\n丁\tdd\tzz\n");
    assert_eq!(d.header, "# head\n---\nname: x\n...");
    let got: Vec<(String, String, u32, usize)> =
        d.vocabs.iter().map(|v| (v.text.clone(), v.spell.0.clone(), v.weight, v.ord)).collect();
    assert_eq!(
        got,
        vec![
            ("甲".to_string(), "aaaxx".to_string(), 12, 0),
            ("乙".to_string(), "bbbyy".to_string(), 0, 1),
            ("丙".to_string(), "".to_string(), 0, 2),
            ("丁".to_string(), "dd".to_string(), 0, 3),
        ]
    );
}

#[test]
fn parse_without_header_marker() {
    let d = Dict::parse("甲\taaaxx\t5");
    assert_eq!(d.header, "");
    assert_eq!(d.vocabs.len(), 1);
    assert_eq!(d.vocabs[0].weight, 5);
}

#[test]
fn decimal_weights() {
    let v = |s: &str| parse_u32(&s.chars().collect());
    assert_eq!(v("4294967295"), Some(u32::MAX));
    assert_eq!(v("4294967296"), None);
    assert_eq!(v("+17"), Some(17));
    assert_eq!(v(""), None);
    assert_eq!(v("+"), None);
    assert_eq!(v("-1"), None);
    assert_eq!(v("1 "), None);
}

#[test]
fn split_keeps_empty_pieces() {
    let p = split_chars(&"a\t\tb\t".chars().collect(), '\t');
    let s: Vec<String> = p.iter().map(|x| x.iter().collect()).collect();
    assert_eq!(s, vec!["a", "", "b", ""]);
}

#[test]
fn text_reads_utf8() {
    assert_eq!(text(&b"ab".to_vec()), "ab");
    assert_eq!(text(&"甲a".as_bytes().to_vec()), "甲a");
}

#[test]
fn header_marker_is_searched_among_the_first_bytes() {
    let mut content = "甲".repeat(400);
    content.push_str("...
乙	bb	3
");
    let d = Dict::parse(&content);
    assert_eq!(d.header, "");
    assert_eq!(d.vocabs.len(), 2);
    assert_eq!(d.vocabs[0].text, format!("{}...", "甲".repeat(400)));
    let mut near = "甲".repeat(340);
    near.push_str("...
乙	bb	3
");
    let d = Dict::parse(&near);
    assert_eq!(d.header, format!("{}...", "甲".repeat(340)));
    assert_eq!(d.vocabs.len(), 1);
}

#[test]
fn render_orders_by_spelling() {
    let d = Dict::parse("h\n...\n甲\tbb\t1\n乙\ta\t2\n丙\tab\t3\n丁\tbb\t4\n");
    assert_eq!(d.render(true), "h\n...\n乙\ta\t2\n丙\tab\t3\n甲\tbb\t1\n丁\tbb\t4\n");
}

#[test]
fn render_with_and_without_weight() {
    let d = Dict::parse("h\n...\n甲\taaaxx\t12\n");
    assert_eq!(d.render(true), "h\n...\n甲\taaaxx\t12\n");
    assert_eq!(d.render(false), "h\n...\n甲\taaaxx\n");
    let z = Dict::parse("...\n乙\tbb\n丙\tcc\t4294967295\n");
    assert_eq!(z.render(true), "...\n乙\tbb\t0\n丙\tcc\t4294967295\n");
}

#[test]
fn header_names_the_dictionary() {
    let h = Dict::header("moran.abbrev", "");
    assert!(h.contains("name: moran.abbrev\n"));
    assert!(h.ends_with("..."));
}

#[test]
fn patch() {
    let mut dict = Dict::parse("...\n甲\taa\t1\n乙\tbb\t2\n丙\taa\t3\n");
    let preset = Dict::parse("...\n丁\taa\t9\n");
    dict.patch(preset);
    assert_eq!(dict.render(false), "...\n丁\taa\n乙\tbb\n");
}

#[test]
fn empty_slots() {
    let dict = Dict::parse("...\n甲\taaaxx\n乙\tabqzz\n");
    let used: Vec<String> = dict.vocabs.iter().map(|v: &Vocab| v.spell.0[..2].to_string()).collect();
    let mut empty = 0;
    for c1 in 'a'..='z' {
        for c2 in 'a'..='z' {
            if !used.contains(&format!("{c1}{c2}")) {
                empty += 1;
            }
        }
    }
    assert_eq!(empty, 26 * 26 - 2);
    let _ = Spell(String::new());
}
