use mystery_novel_agent::library::{slugify, to_ascii_filename};
use mystery_novel_agent::utils::{count_han, join_tags, normalize_ws, split_tags, to_simplified};

#[test]
fn test_count_han() {
    assert_eq!(count_han("好看"), 2);
    assert_eq!(count_han("这本书非常好看，强烈推荐"), 11);
    assert_eq!(count_han("hello world"), 0);
}

#[test]
fn test_split_join_tags() {
    let tags = split_tags("本格推理, 日本, 妖怪推理");
    assert_eq!(tags, vec!["本格推理", "日本", "妖怪推理"]);
    assert_eq!(join_tags(&tags), "本格推理, 日本, 妖怪推理");
}

#[test]
fn test_traditional_to_simplified() {
    let t = to_simplified("鐘錶館事件");
    assert_eq!(t, "钟表馆事件");
    assert_eq!(to_simplified("白夜行"), "白夜行");
}

#[test]
fn test_slugify() {
    assert_eq!(slugify("绫辻行人"), "ling-shi-xing-ren");
    assert!(slugify("Agatha Christie").contains("agatha"));
    assert!(!slugify("钟表馆事件：修").contains('：'));
    assert!(slugify("钟表馆事件").is_ascii());
    assert_eq!(slugify("吕布"), "lv-bu");
    assert_eq!(slugify("绿色"), "lv-se");
}

#[test]
fn test_filename() {
    let name = to_ascii_filename("绫辻行人", "钟表馆事件", Some(("馆系列", 3)));
    assert!(name.starts_with("[guan-xi-lie-3]"));
    assert!(name.ends_with(".epub"));
    assert!(name.is_ascii());
}

#[test]
fn white_space_is_single_and_inside() {
    assert_eq!(normalize_ws(" a \n\t b\u{3000}c "), "a b c");
    assert_eq!(normalize_ws(" \n "), "");
    assert_eq!(normalize_ws(&normalize_ws("x  y")), "x y");
}

#[test]
fn names_of_files_hold_plain_characters() {
    let name = to_ascii_filename("Éric 女", "a/b\\c 诶欸", Some(("S/1", -2)));
    assert!(name.chars().all(|c| c.is_ascii_lowercase() || c.is_ascii_digit() || "-[]. ".contains(c)));
    assert!(name.starts_with("[s-1--2] "));
}
