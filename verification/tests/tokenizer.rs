use opencontext_core::searcher::Searcher;
use opencontext_core::text::{chars_of, leaf_name, leaf_of, parent_of, trim};
use opencontext_core::tokenizer::{lowercase_is_stable, scan_tokens};

fn words(list: &[&str]) -> Vec<String> {
    list.iter().map(|s| s.to_string()).collect()
}

#[test]
fn cjk_query_tokens() {
    assert_eq!(Searcher::tokenize("数据"), words(&["数", "数据", "据"]));
}

#[test]
fn cjk_run_of_three() {
    assert_eq!(Searcher::tokenize("数据库"), words(&["数", "数据", "据", "据库", "库"]));
}

#[test]
fn cjk_coverage_counts() {
    for n in 2..40usize {
        let text: String = std::iter::repeat('文').take(n).collect();
        assert_eq!(Searcher::tokenize(&text).len(), n + (n - 1));
    }
    assert_eq!(Searcher::tokenize("文").len(), 1);
}

#[test]
fn latin_runs_need_two_characters() {
    assert_eq!(Searcher::tokenize("a bc d ef1 2"), words(&["bc", "ef1"]));
    assert_eq!(Searcher::tokenize("x"), Vec::<String>::new());
    assert_eq!(Searcher::tokenize(""), Vec::<String>::new());
}

#[test]
fn mixed_scripts_flush_each_other() {
    assert_eq!(Searcher::tokenize("ab数据cd"), words(&["ab", "数", "数据", "据", "cd"]));
    assert_eq!(Searcher::tokenize("a数b"), words(&["数"]));
    assert_eq!(Searcher::tokenize("hello, world! 你好"), words(&["hello", "world", "你", "你好", "好"]));
}

#[test]
fn punctuation_and_other_scripts_separate() {
    assert_eq!(Searcher::tokenize("foo-bar_baz"), words(&["foo", "bar", "baz"]));
    assert_eq!(Searcher::tokenize("caféau"), words(&["caf", "au"]));
    assert_eq!(Searcher::tokenize("数。据"), words(&["数", "据"]));
}

#[test]
fn tokenize_lowercases() {
    assert_eq!(Searcher::tokenize("Hello WORLD"), words(&["hello", "world"]));
    assert_eq!(scan_tokens("Hello WORLD"), words(&["Hello", "WORLD"]));
}

#[test]
fn lowercasing_first_changes_nothing() {
    for text in ["Hello World", "MiXeD 数据 Case", "ÀB ǅx İstanbul", "ΣΑΣ kelvin K", ""] {
        assert_eq!(Searcher::tokenize(text), Searcher::tokenize(&text.to_lowercase()));
    }
}

#[test]
fn lowercase_forms_are_stable() {
    for text in ["Hello World", "MiXeD 数据 Case", "ÀB ǅx İstanbul", "ΣΑΣ kelvin K", "ᾈ ﬁ ẞ", ""] {
        assert!(lowercase_is_stable(text));
        assert_eq!(Searcher::tokenize(&text.to_lowercase()), Searcher::tokenize(text));
    }
    for code in 0..0x3000u32 {
        if let Some(c) = char::from_u32(code) {
            let text = format!("a{}b", c);
            assert!(lowercase_is_stable(&text));
            assert_eq!(Searcher::tokenize(&text.to_lowercase()), Searcher::tokenize(&text));
        }
    }
}

#[test]
fn chinese_char_range() {
    assert!(Searcher::is_chinese_char('\u{4e00}'));
    assert!(Searcher::is_chinese_char('\u{9fff}'));
    assert!(Searcher::is_chinese_char('数'));
    assert!(!Searcher::is_chinese_char('\u{4dff}'));
    assert!(!Searcher::is_chinese_char('\u{a000}'));
    assert!(!Searcher::is_chinese_char('a'));
    assert!(!Searcher::is_chinese_char('あ'));
}

#[test]
fn add_chinese_tokens_appends() {
    let mut tokens = words(&["kept"]);
    Searcher::add_chinese_tokens("数据库", &mut tokens);
    assert_eq!(tokens, words(&["kept", "数", "数据", "据", "据库", "库"]));
    Searcher::add_chinese_tokens("", &mut tokens);
    assert_eq!(tokens.len(), 6);
    Searcher::add_chinese_tokens("ab", &mut tokens);
    assert_eq!(&tokens[6..], &words(&["a", "ab", "b"])[..]);
}

#[test]
fn count_tokens_counts_each_term() {
    let tokens = words(&["ab", "cd", "ab", "ab", "数"]);
    let freq = Searcher::count_tokens(&tokens);
    assert_eq!(freq.get(&"ab".to_string()), 3);
    assert_eq!(freq.get(&"cd".to_string()), 1);
    assert_eq!(freq.get(&"数".to_string()), 1);
    assert_eq!(freq.get(&"zz".to_string()), 0);
    assert_eq!(freq.total(), 5);
    let none = Searcher::count_tokens(&[]);
    assert_eq!(none.total(), 0);
    assert_eq!(none.get(&"ab".to_string()), 0);
}

#[test]
fn chars_of_keeps_every_character() {
    assert_eq!(chars_of("a数/b"), vec!['a', '数', '/', 'b']);
    assert_eq!(chars_of(""), Vec::<char>::new());
}

#[test]
fn trim_removes_white_space_around() {
    assert_eq!(trim("  hello world \t\n"), "hello world");
    assert_eq!(trim("   "), "");
    assert_eq!(trim(""), "");
    assert_eq!(trim("\u{3000}数据\u{a0}"), "数据");
    assert_eq!(trim("x"), "x");
    for text in [" a b ", "\u{2003}x\u{85}", "\u{1680}\u{2028}", "\u{200b}x", "\u{feff}y "] {
        assert_eq!(trim(text), text.trim());
    }
}

#[test]
fn leaf_name_strips_md() {
    assert_eq!(leaf_name("a/x.md"), "x");
    assert_eq!(leaf_name("root.md"), "root");
    assert_eq!(leaf_name("a/b/c.txt"), "c.txt");
    assert_eq!(leaf_name("a/x.md.md"), "x");
    assert_eq!(leaf_name("a/.md"), "");
    assert_eq!(leaf_name("a/"), "");
    assert_eq!(leaf_name("md"), "md");
}

#[test]
fn parent_and_leaf_split_at_last_slash() {
    assert_eq!(parent_of("a/x.md"), "a");
    assert_eq!(parent_of("a/b/x.md"), "a/b");
    assert_eq!(parent_of("root.md"), ".");
    assert_eq!(parent_of("/x.md"), "");
    assert_eq!(leaf_of("a/b"), "b");
    assert_eq!(leaf_of("b"), "b");
    assert_eq!(leaf_of("a/b/"), "");
}
