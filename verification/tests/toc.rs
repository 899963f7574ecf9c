use addon_parse::directory::{read_addons, toc_file_name, TocFile};
use addon_parse::text::{parse_number, replace, split, to_lower, trim, white_space};
use addon_parse::toc::{parse_toc_path, read_directive, split_dependencies_into_vec, COLOR_PATTERN};
use addon_parse::{Addon, Fingerprint};

fn lines(text: &str) -> Vec<String> {
    text.lines().map(|l| l.to_string()).collect()
}

fn parse(text: &str) -> Option<Addon> {
    parse_toc_path("Foo".to_string(), "/addons/Foo".to_string(), &lines(text))
}

fn pair(key: &str, value: &str) -> Option<(String, String)> {
    Some((key.to_string(), value.to_string()))
}

#[test]
fn directives() {
    assert_eq!(read_directive("## Title: Foo"), pair("Title", "Foo"));
    assert_eq!(read_directive("##\tTitle:Foo"), pair("Title", "Foo"));
    assert_eq!(read_directive("## Title:  Foo "), pair("Title", " Foo "));
    assert_eq!(read_directive("## Notes: a:b"), pair("Notes", "a:b"));
    assert_eq!(read_directive("## :"), pair("", ""));
    assert_eq!(read_directive("##  Title : x"), pair(" Title ", "x"));
    assert_eq!(read_directive("##Title: Foo"), None);
    assert_eq!(read_directive("# Title: Foo"), None);
    assert_eq!(read_directive(" ## Title: Foo"), None);
    assert_eq!(read_directive("## Title"), None);
    assert_eq!(read_directive("main.lua"), None);
    assert_eq!(read_directive(""), None);
}

#[test]
fn directives_agree_with_the_regular_expression() {
    let re = regex::Regex::new(r"^##\s(?P<key>.*?):\s?(?P<value>.*)").unwrap();
    let samples = [
        "## Title: Foo", "##\u{a0}Title:\u{3000}Foo", "## Ti\ntle: Foo", "##\nTitle: Foo",
        "## Title:\nFoo\nBar", "## Title: Foo\nBar", "## Title:", "## Title: ", "## :", "##:",
        "## ::", "###: x", "## a:b:c", "##\u{200b}a:b", "##\u{85}a:\u{85}b", "## é: ü", "## \r: x",
        "## a\n:b", "## a:\r\nb", "", "#", "##", "## ", "## a", "## Title: Foo\n## Title: Bar",
        "##\u{2028}k:\u{2029}v", "##\u{180e}k:v", "##\u{1c}k:v", "##\u{b}k:\u{c}v",
    ];
    for line in samples {
        let found: Vec<(String, String)> = re
            .captures_iter(line)
            .map(|c| (c["key"].to_string(), c["value"].to_string()))
            .collect();
        assert!(found.len() <= 1);
        assert_eq!(read_directive(line), found.into_iter().next(), "{:?}", line);
    }
}

#[test]
fn white_space_is_that_of_unicode() {
    for n in 0..=0x10ffffu32 {
        if let Some(c) = char::from_u32(n) {
            assert_eq!(white_space(c), c.is_whitespace());
        }
    }
}

#[test]
fn texts_are_handled_like_in_std() {
    for s in ["", " ", " a b ", "\u{2003}a\u{a0}", "a", "\r\n", "x\t", "\tx", "é "] {
        assert_eq!(trim(s), s.trim());
        assert_eq!(to_lower(s), s.to_ascii_lowercase());
    }
    assert_eq!(to_lower("AZ@[`{ÄÖ09"), "az@[`{ÄÖ09");
    assert_eq!(replace("a\\b\\\\c", '\\', '/'), "a/b//c");
    for s in ["", ",", "a", "a,b", ",a,,b,", "é,ü"] {
        let parts: Vec<&str> = s.split(',').collect();
        assert_eq!(split(s, &[',']), parts);
    }
    assert_eq!(split("a\r\nb\nc", &['\n', '\r']), ["a", "", "b", "c"]);
}

#[test]
fn numbers_are_read_like_in_std() {
    for s in [
        "", "+", "0", "+7", "007", "4294967295", "4294967296", "99999999999", "-1", " 1", "1 ", "1a",
        "++1", "+-1", "٣", "00000000000000000012",
    ] {
        assert_eq!(parse_number(s), s.parse::<u32>().ok(), "{:?}", s);
    }
}

#[test]
fn dependencies_are_split_at_commas() {
    assert_eq!(split_dependencies_into_vec(""), Vec::<String>::new());
    assert_eq!(split_dependencies_into_vec("Foo"), ["Foo"]);
    assert_eq!(split_dependencies_into_vec("Foo, Bar ,Baz"), ["Foo", "Bar", "Baz"]);
    assert_eq!(split_dependencies_into_vec(" , "), ["", ""]);
    assert_eq!(split_dependencies_into_vec(" "), [""]);
}

#[test]
fn a_full_toc_file() {
    let addon = parse(
        "## Interface: 80300\n## Title: |cff1784d1Elv|r|cffe5e3e3UI|r \n## Author:  Elv, Bunny \n\
         ## Notes: |cff00ff00Green|r text\n## Version: 11.52 \n## RequiredDeps: A, B\n\
         ## Dependencies: C\n## X-Tukui-ProjectID: -2\n## X-WoWI-ID: 123 \n\
         ## X-Curse-Project-ID: 456\n# comment\nmain.lua",
    )
    .unwrap();
    assert_eq!(addon.id, "Foo");
    assert_eq!(addon.path, "/addons/Foo");
    assert_eq!(addon.title, "ElvUI");
    assert_eq!(addon.author, Some("Elv, Bunny".to_string()));
    assert_eq!(addon.notes, Some("Green text".to_string()));
    assert_eq!(addon.version, Some("11.52".to_string()));
    assert_eq!(addon.dependencies, ["A", "B", "C"]);
    assert_eq!(addon.tukui_id, Some("-2".to_string()));
    assert_eq!(addon.wowi_id, Some("123 ".to_string()));
    assert_eq!(addon.curse_id, Some(456));
    assert_eq!(addon.fingerprint, None);
    assert_eq!(addon.clone(), addon);
}

#[test]
fn a_toc_file_without_title_describes_nothing() {
    assert_eq!(parse("## Author: me\n## Version: 1"), None);
    assert_eq!(parse(""), None);
}

#[test]
fn the_last_directive_counts() {
    let addon = parse("## Title: A\n## Title: B\n## X-Curse-Project-ID: 5\n## X-Curse-Project-ID: x")
        .unwrap();
    assert_eq!(addon.title, "B");
    assert_eq!(addon.curse_id, Some(5));
}

#[test]
fn other_lines_do_not_count() {
    let with = parse("# note\n## Title: A\n## X-Part-Of: B\nmain.lua\n## title: C");
    assert_eq!(with, parse("## Title: A"));
}

#[test]
fn color_marks_need_nine_characters() {
    let title = |value: &str| parse(&format!("## Title: {}", value)).unwrap().title;
    assert_eq!(title("|cff00ff00Green|r"), "Green");
    assert_eq!(title("|cff00ff00Green|"), "Green");
    assert_eq!(title("|cff00ff0Green|r"), "|cff00ff0Green|r");
    assert_eq!(title("|cff00ff00Green"), "|cff00ff00Green");
    let re = regex::Regex::new(r"\|[a-fA-F\d]{9}([^|]+)\|r?").unwrap();
    assert_eq!(re.as_str(), COLOR_PATTERN);
}

#[test]
fn addons_of_a_collection() {
    let list = vec![
        Fingerprint { title: "Foo".to_string(), hash: Some(7) },
        Fingerprint { title: "Bar".to_string(), hash: Some(8) },
        Fingerprint { title: "Baz".to_string(), hash: None },
    ];
    let toc = |id: &str, text: &str| {
        Some(TocFile { id: id.to_string(), path: format!("/a/{}", id), lines: lines(text) })
    };
    let tocs = vec![toc("Foo", "## Notes: no title"), None, toc("Baz", "## Title: Baz!")];
    let addons = read_addons(&list, tocs);
    assert_eq!(addons.len(), 1);
    assert_eq!(addons[0].id, "Baz");
    assert_eq!(addons[0].title, "Baz!");
    assert_eq!(addons[0].fingerprint, None);
    let addons = read_addons(&list[..1].to_vec(), vec![toc("Foo", "## Title: Foo")]);
    assert_eq!(addons[0].fingerprint, Some(7));
    assert_eq!(toc_file_name("Foo"), "Foo.toc");
}
