use moran_abbrev::abbr::{build_abbreviations, gen, key_lt, min_weight, render_abbreviations, resolve_collision, sort_by_weight, common_index};
use moran_abbrev::code::{CharCodes, Code, SpellError};
use moran_abbrev::dict::{Dict, Spell, Vocab};

fn vocab(text: &str, spell: &str, weight: u32, ord: usize) -> Vocab {
    Vocab { text: text.to_string(), spell: Spell(spell.to_string()), weight, ord }
}

fn code(s: &str) -> Code {
    Code::parse(s).unwrap()
}

fn lines(table: &[(Vec<u8>, Vec<Vocab>)]) -> Vec<String> {
    let mut out = Vec::new();
    for (k, g) in table {
        for v in g {
            out.push(format!("{}\t{}\t{}", v.text, String::from_utf8(k.clone()).unwrap(), v.weight));
        }
    }
    out
}

#[test]
fn parse_takes_slots_zero_one_three_four() {
    let c = code("abcde");
    assert_eq!(c, Code { conso: b'a', vowel: b'b', head: b'd', tail: b'e' });
}

#[test]
fn parse_rejects_wrong_length() {
    assert_eq!(Code::parse("abcd"), Err(SpellError::WrongLength));
    assert_eq!(Code::parse("abcdef"), Err(SpellError::WrongLength));
    assert_eq!(Code::parse(""), Err(SpellError::WrongLength));
    // five characters, but more than five bytes
    assert_eq!(Code::parse("ab;dé"), Err(SpellError::WrongLength));
}

#[test]
fn fly_looks_up_the_original_pair_once() {
    let mut c = code("lz;xx");
    c.fly();
    assert_eq!((c.conso, c.vowel), (b'l', b'w'));
    // the result is itself a key, but a second step is a separate call
    c.fly();
    assert_eq!((c.conso, c.vowel), (b'l', b'x'));
}

#[test]
fn fly_leaves_pairs_outside_the_table() {
    let mut c = code("aa;xy");
    c.fly();
    assert_eq!(c, code("aa;xy"));
    let mut d = code("bz;qr");
    d.fly();
    assert_eq!(d, Code { conso: b'b', vowel: b'w', head: b'q', tail: b'r' });
}

#[test]
fn fly_is_asymmetric() {
    let mut c = code("bw;xx");
    c.fly();
    assert_eq!(c.vowel, b'w');
}

fn table(entries: &[(&str, &str)]) -> CharCodes {
    let v: Vec<Vocab> = entries.iter().enumerate().map(|(i, (t, s))| vocab(t, s, 0, i)).collect();
    CharCodes::from_entries(&v)
}

#[test]
fn table_skips_malformed_spellings_and_later_entries_win() {
    let t = table(&[("甲", "aaaxx"), ("乙", "bad"), ("甲", "ccczz")]);
    assert_eq!(t.get('甲'), Some(code("ccczz")));
    assert_eq!(t.get('乙'), None);
}

#[test]
fn infer_normalizes_each_character() {
    let t = table(&[("甲", "lzaxy"), ("乙", "aaaxx")]);
    let codes = Code::infer("甲乙", &t).unwrap();
    assert_eq!(codes, vec![Code { conso: b'l', vowel: b'w', head: b'x', tail: b'y' }, code("aaaxx")]);
    assert_eq!(Code::infer("甲丙", &t), None);
    assert_eq!(t.missing("甲丙乙"), Some('丙'));
    assert_eq!(t.missing("甲乙"), None);
}

#[test]
fn infer_abbr_has_one_initial_per_character() {
    let t = table(&[("甲", "lzaxy"), ("乙", "bbbyy"), ("丙", "cccww")]);
    let a = Code::infer_abbr("甲乙丙乙", &t).unwrap();
    assert_eq!(a, b"lbcb".to_vec());
    assert_eq!(a.len(), "甲乙丙乙".chars().count());
    assert_eq!(Code::infer_abbr("甲丁", &t), None);
}

#[test]
fn gate_floors() {
    assert_eq!(min_weight(0), None);
    assert_eq!(min_weight(1), None);
    assert_eq!(min_weight(2), Some(30000));
    assert_eq!(min_weight(3), Some(500));
    assert_eq!(min_weight(4), Some(200));
    assert_eq!(min_weight(5), None);
}

fn chars() -> Vec<Vocab> {
    vec![
        vocab("甲", "aaaxx", 100, 0),
        vocab("乙", "bbbyy", 200, 1),
        vocab("丙", "cccww", 300, 2),
        vocab("丁", "dddvv", 400, 3),
    ]
}

#[test]
fn gate_boundary_two_characters() {
    let kept = build_abbreviations(&chars(), &vec![vocab("甲乙", "", 30000, 0)]);
    assert_eq!(lines(&kept), vec!["甲乙\tab\t30000"]);
    let dropped = build_abbreviations(&chars(), &vec![vocab("甲乙", "", 29999, 0)]);
    assert!(dropped.is_empty());
}

#[test]
fn gate_boundary_three_and_four_characters() {
    let t = build_abbreviations(&chars(), &vec![vocab("甲乙丙", "", 500, 0), vocab("乙丙丁", "", 499, 1)]);
    assert_eq!(lines(&t), vec!["甲乙丙\tabc\t500"]);
    let t = build_abbreviations(&chars(), &vec![vocab("甲乙丙丁", "", 200, 0), vocab("丁丙乙甲", "", 199, 1)]);
    assert_eq!(lines(&t), vec!["甲乙丙丁\tabcd\t200"]);
}

#[test]
fn single_characters_and_long_words_get_nothing() {
    let t = build_abbreviations(&chars(), &vec![vocab("甲", "", 4000000, 0), vocab("甲乙丙丁甲", "", 4000000, 1)]);
    assert!(t.is_empty());
}

#[test]
fn one_word_per_two_symbol_key() {
    let words = vec![vocab("甲乙", "", 30000, 0), vocab("甲乙", "", 90000, 1), vocab("甲乙", "", 60000, 2)];
    let t = build_abbreviations(&chars(), &words);
    assert_eq!(t.len(), 1);
    assert_eq!(t[0].1.len(), 1);
    assert_eq!(t[0].1[0].weight, 90000);
    assert_eq!(t[0].1[0].ord, 1);
}

#[test]
fn longer_keys_keep_the_whole_group_by_weight() {
    let words = vec![vocab("甲乙丙", "", 600, 0), vocab("甲乙丙", "", 900, 1), vocab("甲乙丙", "", 600, 2)];
    let t = build_abbreviations(&chars(), &words);
    let ords: Vec<usize> = t[0].1.iter().map(|v| v.ord).collect();
    assert_eq!(ords, vec![1, 0, 2]);
}

#[test]
fn collision_incumbent_at_floor_discards() {
    let mut cs = chars();
    cs.push(vocab("戊", "abqzz", 50000, 4));
    let t = build_abbreviations(&cs, &vec![vocab("甲乙", "", 4000000, 0)]);
    assert!(lines(&t).is_empty());
}

#[test]
fn collision_lighter_incumbent_promotes() {
    let mut cs = chars();
    cs.push(vocab("戊", "abqzz", 49999, 4));
    let t = build_abbreviations(&cs, &vec![vocab("甲乙", "", 40000, 0)]);
    assert_eq!(lines(&t), vec![format!("甲乙\tab\t{}", u32::MAX)]);
}

#[test]
fn resolve_collision_cases() {
    let g = vec![vocab("甲乙", "", 70000, 0)];
    assert!(resolve_collision(&b"ab".to_vec(), g, Some(50000)).is_empty());
    let g = vec![vocab("甲乙", "", 70000, 0), vocab("甲乙", "", 10, 1)];
    let r = resolve_collision(&b"ab".to_vec(), g, Some(49999));
    assert_eq!(r.len(), 1);
    assert_eq!(r[0].weight, u32::MAX);
    let g = vec![vocab("甲乙", "", 70000, 0), vocab("甲乙", "", 10, 1)];
    let r = resolve_collision(&b"ab".to_vec(), g, None);
    assert_eq!((r.len(), r[0].weight), (1, 70000));
    let g = vec![vocab("甲乙丙", "", 700, 0), vocab("甲乙丙", "", 600, 1)];
    assert_eq!(resolve_collision(&b"abc".to_vec(), g, Some(90000)).len(), 2);
}

#[test]
fn end_to_end_two_characters() {
    let char_dict = Dict::parse("---\n...\n甲\taaaxx\t100\n乙\tbbbyy\t200\n");
    let word_dict = Dict::parse("---\n...\n甲乙\tx\t40000\n");
    let t = gen(&char_dict, &word_dict);
    let out = render_abbreviations("head", &t);
    // no entry holds the two-symbol code "ab" in the common-code index
    assert_eq!(out, "head\n甲乙\tab\t40000\n");
}

#[test]
fn end_to_end_with_light_incumbent() {
    let char_dict = Dict::parse("甲\taaaxx\t100\n乙\tbbbyy\t200\n丙\tabxxx\t300\n");
    let word_dict = Dict::parse("甲乙\tx\t40000\n");
    let t = gen(&char_dict, &word_dict);
    let out = render_abbreviations("head", &t);
    assert_eq!(out, format!("head\n甲乙\tab\t{}\n", u32::MAX));
}

#[test]
fn output_in_ascending_key_order() {
    let words = vec![vocab("甲丙", "", 40000, 0), vocab("甲乙", "", 40000, 1), vocab("乙甲丙", "", 800, 2)];
    let t = build_abbreviations(&chars(), &words);
    let keys: Vec<Vec<u8>> = t.iter().map(|(k, _)| k.clone()).collect();
    assert_eq!(keys, vec![b"ab".to_vec(), b"ac".to_vec(), b"bac".to_vec()]);
}

#[test]
fn key_order_is_bytewise() {
    assert!(key_lt(&b"ab".to_vec(), &b"ac".to_vec()));
    assert!(key_lt(&b"ab".to_vec(), &b"abc".to_vec()));
    assert!(key_lt(&b"abc".to_vec(), &b"b".to_vec()));
    assert!(!key_lt(&b"ab".to_vec(), &b"ab".to_vec()));
}

#[test]
fn common_index_groups_by_composite_code() {
    let cs = chars();
    let ws = vec![vocab("甲乙", "", 7, 0), vocab("甲乙丙", "", 9, 1)];
    let t = CharCodes::from_entries(&cs);
    let idx = common_index(&cs, &ws, &t);
    // two keys per character, one per two-character word
    assert_eq!(idx.len(), 9);
    let sorted = sort_by_weight(&vec![vocab("a", "", 1, 0), vocab("b", "", 3, 1), vocab("c", "", 1, 2)]);
    let texts: Vec<&str> = sorted.iter().map(|v| v.text.as_str()).collect();
    assert_eq!(texts, vec!["b", "a", "c"]);
}
