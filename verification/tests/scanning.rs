use addon_parse::expressions::{has_self_reference, measure};
use addon_parse::find::{find_child, FileSearch, FindAction, FindEvent};
use addon_parse::includes::{included_paths, note_answer, NextSearch, Search, SearchEnd};
use addon_parse::patterns::{
    assemble_patterns, file_parsing_regex, find_bad_pattern, supports, try_file_parsing_regex,
    CategorySection, FileParsingRule, GameInfo, PatternError,
};
use addon_parse::regexes::Found;
use addon_parse::scan::{
    classify, file_class, files_below, DirScan, FileClass, FoundFile, ScanAction, ScanEvent,
};
use addon_parse::sizes::stays_small;
use addon_parse::ParsingPatterns;

fn rule(extension: &str, comment: &str, inclusion: &str) -> FileParsingRule {
    FileParsingRule {
        file_extension: extension.to_string(),
        comment_strip_pattern: comment.to_string(),
        inclusion_pattern: inclusion.to_string(),
    }
}

fn game(initial: &str, extra: &str, rules: Vec<FileParsingRule>) -> GameInfo {
    GameInfo {
        category_sections: vec![CategorySection {
            initial_inclusion_pattern: initial.to_string(),
            extra_include_pattern: extra.to_string(),
        }],
        file_parsing_rules: rules,
    }
}

fn compiled(info: &GameInfo) -> ParsingPatterns {
    assert!(supports(info));
    assert_eq!(find_bad_pattern(info), None);
    file_parsing_regex(info)
}

fn wow() -> ParsingPatterns {
    compiled(&game(
        r"^([^/\\]+)[\\/]\1\.toc$",
        r"^[^/\\]+[/\\]bindings\.xml$",
        vec![
            rule(".xml", r"(?s)<!--.*?-->", r#"<(?:Include|Script)\s+file=["']((?:(?<!\.\.).)+?)["']\s*/>"#),
            rule(".toc", r"(?m)\s*#.*$", r"^\s*((?:(?<!\.\.).)+\.(?:xml|lua))\s*$"),
        ],
    ))
}

fn searched(names: &[&str], end: SearchEnd) -> Search {
    Search { names: names.iter().map(|n| n.to_string()).collect(), end }
}

fn file(path: &str) -> FoundFile {
    FoundFile { path: format!("/addons/{}", path), relative: Some(path.to_string()) }
}

#[test]
fn patterns_that_do_not_compile() {
    let bad = "(";
    let error = |info: GameInfo| {
        assert!(supports(&info));
        let bad = try_file_parsing_regex(&info).err();
        assert_eq!(find_bad_pattern(&info), bad);
        bad
    };
    assert_eq!(error(game(bad, bad, vec![])), Some(PatternError::Inclusion));
    assert_eq!(error(game("a", bad, vec![])), Some(PatternError::ExtraInclusion));
    let rules = vec![rule(".a", "x", "y"), rule(".b", bad, bad)];
    assert_eq!(error(game("a", "b", rules)), Some(PatternError::CommentStrip(1)));
    let rules = vec![rule(".a", "x", bad), rule(".b", bad, bad)];
    assert_eq!(error(game("a", "b", rules)), Some(PatternError::FileInclusion(0)));
    assert_eq!(error(game("a", "b", vec![rule(".a", "x", "y")])), None);
    // Look-around belongs to the inclusion pattern only.
    let rules = vec![rule(".a", "(?=x)", "y")];
    assert_eq!(error(game("a", "b", rules)), Some(PatternError::CommentStrip(0)));
    assert_eq!(error(game("(?=a)", "b", vec![rule(".a", "x", "(?=y)")])), None);
    assert!(assemble_patterns(None, None, vec![]).is_err());
}

#[test]
fn groups_that_refer_to_themselves_further_on() {
    for source in [
        r"(?:(a|b\1)c)+", r"(?:c(a|b\1))*", r"(?:(a\1)c){2,3}", r"(?:(a\1)c){2}", r"(?:(a\1)c){0,}",
        r"(?:(a\1)c){,2}", r"(?:(a\1)c){99999999999}", r"(?x)(?:(a\1)c){ 1 (?#c) , 2 }",
        r"(?:(a|b\1)c)+?", r"(?:x(?:(a\1)y)z)*", r"(?:x(?:(a\1)))*", r"(?:(?:(a\1)y))*",
        r"(?:(a\1)|c)+", r"(?:(a\1)(b\2))+", r"(?:((a)\1)c)+", r"((a\2)c)+", r"((a\2)c\1)+",
        r"(?:(\(\1)c)+", r"(?:([)]\1)c)+", r"(?:([]\])]\1)c)+", r"(?:(?<n>a\k<n>)c)+",
        r"(?:(?P<n>a(?P=n))c)+", r"(?:(?<n>a\k'n')c)+", r"(?:(a\k<1>)c)+", r"(?:(a\k<-1>)c)+",
        r"(?:(a(b)\k<-2>)c)+", r"(?:(a)(b\2))+", r"(?:(a(?<!b)\1)c)+", r"(?:(?=(a\1))c)+",
        r"(?:(?(a)(b\1)))+", r"(?:(a\1)c)(?#c)+", r"(?x)(?:(a \1)c) # +
            +", r"(?x: (?:(a\1)c) )*", r"(?x)(?:(a\1)c) (?#\)) *", r"(?i(?#c)x)(?:(a\1)c) +",
        r"( ?:a)(?:(b\2)c)+", r"(?x)( ?:a)(?:(b\1)c)+", r"((?#c)?:a)(?:(b\1)c)+",
        r"(?<1>a)(?:(b\k<2>)c)+", r"(?:(a\1)[x])+", r"(?:(a\1)\x{41})+", r"(?:(a\1)\d)+",
        r"(?:(a\1)\k<1>)+", r"(?:(a\1){)+",
    ] {
        assert!(has_self_reference(source), "{}", source);
    }
    for source in [
        "", r"\", r"(", r")", r"[", r"^([^/\\]+)[\\/]\1\.toc$", r"^([^/]+)/\1(?:_(a|b))?\.toc$",
        r"(a\1)", r"(a|b\1)+", r"(a\1)*", r"(a|b\1){2,3}", r"(?:(a|b\1))+", r"((a|b\2))+",
        r"(?:(?:(a\1)))*", r"(?:(a|b\1)+)+", r"(?:^(a\1)$)+", r"(?:\b(a\1))+", r"(?:(a\1)(?=b))+",
        r"(?:(?=(a\1)))+", r"(?<n>a\k<n>)+", r"(?<n>(a\k<2>))+", r"((a)\1)+", r"(?:x(a\1)z)",
        r"(?:(a\1)c) (?#c)+", r"(?:(a\1)c){1}", r"(?:(a\1)c){,1}", r"(?:(a\1)c){0,1}",
        r"(?:(a\1)c){x}", r"(?:(a\1)c){2", r"(?:(a\1)c){", r"(?:(a\1)c){}", r"(?:(a\1)c)?",
        r"(?:(a\1)c)?+", r"(a(?:b\1)+)", r"(?:(a)\1)+", r"((a)\2)+",
        r"((?<n>a)\k<n>)+", r"((?P<n>a)(?P=n))+", r"(?i)(a)\1+", r"[[(]a](b)\1+", r"(a)[(]\1+",
        r"(\\)\1+", r"((a)?(?(1)b|c))+", r"(?<=(a))\1+", r"(?x)(a) \1+", r"(?i-x)(a)\1+",
        r"(?#c)(a)\1+", r"(?:(a)(b\k<1>))+", r"((a)\k<2>)+", r"((a)\k<-1>)+",
        r"(?:(a\99999999999)c)+", r"(?x) # (
            (?:(a)\1)+", r"(?#()(?:(a)\1)+", r"(?x:#)
            )(?:(a)\1)+", r"(?x)(?-x:#(?:(a)\1)+)", r"(?:(a\2)(b))+", r"\k", r"(?P=", r"(?#(a)",
        r"(?<n>a)(?:(?<n>b\k<m>)c)+", r"(?:(a\1[)]c)+", r"(?<1>a)(?:(b\k<1>)c)+",
    ] {
        assert!(!has_self_reference(source), "{}", source);
    }
}

#[test]
fn references_that_can_be_matched() {
    for (source, text) in [
        (r"(a)(b\k<1>)", "aba"),
        (r"(?#c)(a)\1", "aa"),
        (r"(?x)(a) \1 # twice", "aa"),
        (r"(?i-x)(a)\1", "aa"),
        (r"(?:(a|b)\1)+", "aabb"),
        (r"(b|a\1?)", "a"),
        (r"^(a|b\1)+$", "ab"),
        (r"^(a|b\1){2,3}$", "abb"),
        (r"^(?:(a|b\1))+$", "abab"),
        (r"^(?:(a|b\1)(?=b|$))+$", "abb"),
        (r"^(a\1)*$", ""),
    ] {
        let info = game(source, "-", vec![]);
        let patterns = compiled(&info);
        assert!(patterns.can_match());
        assert_eq!(file_class(&patterns, text), Some(FileClass::Searched), "{}", source);
    }
}

#[test]
fn patterns_that_cannot_be_matched() {
    let bad = r"(?:(a|b\1)c)+";
    let can_match = |info: GameInfo| compiled(&info).can_match();
    assert!(!can_match(game(bad, "b", vec![])));
    assert!(!can_match(game("a", bad, vec![])));
    assert!(!can_match(game("a", "b", vec![rule(".a", "c", "d"), rule(".b", "c", bad)])));
    assert!(can_match(game("a", "b", vec![rule(".b", "c", bad), rule(".b", "c", "d")])));
    assert!(can_match(game("a", "b", vec![])));
}

#[test]
fn counts_that_stay_small() {
    let id = "[0-9a-f]{8}-[0-9a-f]{4}-[0-9a-f]{4}-[0-9a-f]{4}-[0-9a-f]{12}";
    let ids = format!("{}|{}", id, id);
    for source in [
        "", "a", "20201231235959", "[0-9]{4}", r"^.{1,260}\.lua$", id, &ids,
        "a{300}b{300}c{300}d{300}", "a{99999}b{99999}", "a{1000}{1000}{1000}{1000}",
        r".{0,255}/.{0,255}/.{0,255}", "((a{1,99999}){1,99999}){1,99999}",
        "{00000000000000000001}", "a{2147483647}", "(((a{1000}){1000}){1000})",
        "(?x)a{ 999999999 }", "a{(?#c)999999999}", r"(a)\k<8>", r"(?<99999>a)\k<99999>", r"(a)\k<-1>",
        r"\x{41}{3}", r"(\p{L}{3})",
    ] {
        assert!(stays_small(source), "{}", source);
    }
    for source in [
        "a{18446744073709551615}a", "((?=a)){18446744073709551614}", "a{4294967296}",
        "a{2147483648}", "ab{2147483647}", "(((a{2000}){2000}){2000})", "((){99999}){99999}",
        "(?x)(a{ 99999 }) { (?#c) 99999 , }", "a{1,4294967296}", "(a{0,1}b{65536}){65536,}",
        r"\k<9223372036854775807>", r"\k'99999999'", r"(a)\k<9>",
    ] {
        assert!(!stays_small(source), "{}", source);
        assert!(!supports(&game(source, "b", vec![])));
        assert!(!supports(&game("a", source, vec![])));
        assert!(!supports(&game("a", "b", vec![rule(".a", "c", source)])));
        assert!(supports(&game("a", "b", vec![rule(".a", source, "d")])));
    }
    assert!(!supports(&GameInfo { category_sections: vec![], file_parsing_rules: vec![] }));
}

#[test]
fn lengths_of_expressions() {
    for (source, size) in [
        ("", 0), ("abc", 3), ("a{3}b{4}", 7), ("ab{3}c", 5), ("(ab){3}", 9), ("((a{2}){3}){4}", 40),
        ("a{2}|b{3}", 5), ("a*b+c?", 3), ("a{0}", 1), ("a{,5}", 1), ("a{2,5}", 2), ("a{2}{3}", 5),
        ("{2}", 3), ("(?x) a { 2 } # {3}", 2), ("a(?#c){2}", 2), (r"\d{2}[{5}]{3}", 5),
        (r"\x{1234}{2}", 2), (r"^\b$", 3), ("(?i)a{4}", 4), ("(?i:a){4}", 8), ("a{9999999999}", 0x8000_0000),
    ] {
        assert_eq!(measure(source), (size, false), "{}", source);
    }
}

#[test]
fn counts_side_by_side_are_compiled() {
    let patterns = compiled(&game("^a{300}b{300}c{300}d{300}$", "^a{9}b{9}|c{9}$", vec![]));
    let text: String = ["a", "b", "c", "d"].iter().map(|c| c.repeat(300)).collect();
    assert_eq!(file_class(&patterns, &text), Some(FileClass::Searched));
    assert_eq!(file_class(&patterns, &text[1..]), Some(FileClass::Skipped));
    assert_eq!(file_class(&patterns, &"c".repeat(9)), Some(FileClass::Counted));
    assert!(compiled(&game("a{99999}b{99999}", "b", vec![])).can_match());
    // Here the compiled expression itself would be too large.
    let large = game("a{99999}{99999}b(a{9999}){9999}", "b", vec![]);
    assert!(supports(&large));
    assert_eq!(try_file_parsing_regex(&large).err(), Some(PatternError::Inclusion));
}

#[test]
fn the_last_rule_for_an_extension_counts() {
    let info = game(
        "a",
        "b",
        vec![rule(".lua", "", "use (old)"), rule(".xml", "", "x"), rule(".lua", "", "use (new)")],
    );
    let patterns = compiled(&info);
    let rules = patterns.rules_for(".lua").unwrap();
    assert_eq!(included_paths(rules, "use old use new"), searched(&["new"], SearchEnd::Complete));
    assert!(patterns.rules_for("lua").is_none());
    assert!(patterns.rules_for(".toc").is_none());
}

#[test]
fn classes_by_answers() {
    assert_eq!(classify(None, Some(true)), None);
    assert_eq!(classify(Some(true), None), Some(FileClass::Searched));
    assert_eq!(classify(Some(false), None), None);
    assert_eq!(classify(Some(false), Some(true)), Some(FileClass::Counted));
    assert_eq!(classify(Some(false), Some(false)), Some(FileClass::Skipped));
}

#[test]
fn classes_of_files() {
    let patterns = wow();
    assert_eq!(file_class(&patterns, "Foo/Foo.toc"), Some(FileClass::Searched));
    assert_eq!(file_class(&patterns, "FOO/foo.TOC"), Some(FileClass::Searched));
    assert_eq!(file_class(&patterns, "Foo/Bar.toc"), Some(FileClass::Skipped));
    assert_eq!(file_class(&patterns, "Foo/Bindings.xml"), Some(FileClass::Counted));
    assert_eq!(file_class(&patterns, "Foo/sub/Bindings.xml"), Some(FileClass::Skipped));
    assert_eq!(files_below("/addons/Foo"), "/addons/Foo/**/*.*");
}

#[test]
fn a_pattern_that_gives_up_gives_no_class() {
    let patterns = compiled(&game(r"(?=a)(x+x+)+y", "b", vec![]));
    assert_eq!(file_class(&patterns, "foo"), Some(FileClass::Skipped));
    let hard = compiled(&game(r"(a|b|ab)*(?=c)", "b", vec![]));
    let text = "ab".repeat(40);
    assert_eq!(file_class(&hard, &text), None);
    let files = vec![FoundFile { path: "x".to_string(), relative: Some(text) }];
    assert!(DirScan::new(&hard, &files).is_none());
    let files = vec![FoundFile { path: "x".to_string(), relative: None }];
    assert!(DirScan::new(&patterns, &files).is_none());
}

#[test]
fn answers_lead_the_search_on() {
    let found = |end: usize, group: Option<&str>| {
        Some(Some(Found { end, group: group.map(|g| g.to_string()) }))
    };
    let mut names = vec![];
    assert_eq!(note_answer(&mut names, None, 0), NextSearch::Stop(SearchEnd::Failed));
    assert_eq!(note_answer(&mut names, Some(None), 0), NextSearch::Stop(SearchEnd::Complete));
    assert_eq!(note_answer(&mut names, found(3, None), 0), NextSearch::Stop(SearchEnd::Failed));
    assert!(names.is_empty());
    assert_eq!(note_answer(&mut names, found(4, Some("a\\b")), 3), NextSearch::From(4));
    assert_eq!(
        note_answer(&mut names, found(4, Some("c")), 4),
        NextSearch::Stop(SearchEnd::Endless)
    );
    assert_eq!(names, ["a/b", "c"]);
}

#[test]
fn included_files_of_a_toc() {
    let patterns = wow();
    let rules = patterns.rules_for(".toc").unwrap();
    let text = "## Title: Foo\r\n# core.lua\r\nlibs\\Libs.xml\r\n main.lua \r\nreadme.txt\n..\\x.lua\n";
    assert_eq!(
        included_paths(rules, text),
        searched(&["libs/Libs.xml", "main.lua"], SearchEnd::Complete)
    );
}

#[test]
fn included_files_of_an_xml() {
    let patterns = wow();
    let rules = patterns.rules_for(".xml").unwrap();
    let text = "<Ui><Script file=\"é\\a.lua\"/><!-- <Script file=\"no.lua\"/> \n --><Include\n\
                file=\"no2.xml\"/><Include file='b.xml' /><Script file=\"c.lua\"/></Ui>";
    assert_eq!(
        included_paths(rules, text),
        searched(&["é/a.lua", "b.xml", "c.lua"], SearchEnd::Complete)
    );
}

#[test]
fn searches_that_fail() {
    let info = game(
        "a",
        "b",
        vec![
            rule(".group", "#", "x|(y)"),
            rule(".empty", "#", "(q*)"),
            rule(".hard", "#", "((a|b|ab)*(?=c))"),
        ],
    );
    let patterns = compiled(&info);
    let search = |extension: &str, text: &str| {
        included_paths(patterns.rules_for(extension).unwrap(), text)
    };
    assert_eq!(search(".group", "yy"), searched(&["y", "y"], SearchEnd::Complete));
    assert_eq!(search(".group", "y#x"), searched(&["y"], SearchEnd::Failed));
    assert_eq!(search(".group", "y\nx\ny"), searched(&["y"], SearchEnd::Failed));
    assert_eq!(search(".empty", "abc\nq"), searched(&[""], SearchEnd::Endless));
    assert_eq!(search(".hard", &"ab".repeat(40)), searched(&[], SearchEnd::Failed));
}

#[test]
fn a_whole_scan() {
    let patterns = wow();
    let files =
        vec![file("Foo/Bindings.xml"), file("Foo/Foo.toc"), file("Foo/main.lua"), file("Foo/a.png")];
    let mut scan = DirScan::new(&patterns, &files).unwrap();
    let p = |s: &str| format!("/addons/{}", s);
    let ext = |s: &str| ScanEvent::Extension(Some(s.to_string()));
    assert_eq!(scan.step(ScanEvent::Start), ScanAction::TellExtension(p("Foo/Foo.toc")));
    assert_eq!(scan.step(ext("toc")), ScanAction::ReadText(p("Foo/Foo.toc")));
    assert_eq!(
        scan.step(ScanEvent::Text("main.lua\nx.xml\nBINDINGS.xml".to_string())),
        ScanAction::FindFiles(
            p("Foo/Foo.toc"),
            vec!["main.lua".to_string(), "x.xml".to_string(), "BINDINGS.xml".to_string()]
        )
    );
    let found = vec![p("Foo/main.lua"), p("Foo/x.xml"), p("Foo/Bindings.xml")];
    assert_eq!(scan.step(ScanEvent::Found(Some(found))), ScanAction::TellExtension(p("Foo/main.lua")));
    assert_eq!(scan.step(ext("lua")), ScanAction::TellExtension(p("Foo/x.xml")));
    assert_eq!(scan.step(ext("xml")), ScanAction::ReadText(p("Foo/x.xml")));
    assert_eq!(
        scan.step(ScanEvent::Text("<Ui/>".to_string())),
        ScanAction::FindFiles(p("Foo/x.xml"), vec![])
    );
    assert_eq!(
        scan.step(ScanEvent::Found(Some(vec![]))),
        ScanAction::TellExtension(p("Foo/Bindings.xml"))
    );
    assert_eq!(scan.step(ext("xml")), ScanAction::ReadText(p("Foo/Bindings.xml")));
    assert_eq!(
        scan.step(ScanEvent::Text(String::new())),
        ScanAction::FindFiles(p("Foo/Bindings.xml"), vec![])
    );
    assert_eq!(
        scan.step(ScanEvent::Found(Some(vec![]))),
        ScanAction::Hash(vec![
            p("Foo/Bindings.xml"),
            p("Foo/Foo.toc"),
            p("Foo/main.lua"),
            p("Foo/x.xml")
        ])
    );
}

fn scan_tree(dir: &str, listed: &[&str]) -> Vec<String> {
    let patterns = wow();
    let files: Vec<FoundFile> = listed
        .iter()
        .map(|rest| FoundFile { path: format!("{}{}", dir, rest), relative: Some(rest.to_string()) })
        .collect();
    let mut scan = DirScan::new(&patterns, &files).unwrap();
    let mut event = ScanEvent::Start;
    loop {
        event = match scan.step(event) {
            ScanAction::TellExtension(path) => {
                ScanEvent::Extension(path.rsplit('.').next().map(|e| e.to_string()))
            }
            ScanAction::ReadText(path) => ScanEvent::Text(
                match &path[dir.len()..] {
                    "Foo/Foo.toc" => "a.xml\nb.lua\nc.lua",
                    "Foo/a.xml" => "<Script file=\"c.lua\"/><Script file=\"d.lua\"/>",
                    _ => "",
                }
                .to_string(),
            ),
            ScanAction::FindFiles(_, names) => ScanEvent::Found(Some(
                names.iter().map(|name| format!("{}Foo/{}", dir, name)).collect(),
            )),
            ScanAction::Hash(paths) => {
                return paths.iter().map(|p| p[dir.len()..].to_string()).collect();
            }
            other => panic!("{:?}", other),
        };
    }
}

#[test]
fn the_same_tree_is_hashed_everywhere() {
    let mut here = scan_tree("/a/", &["Foo/Foo.toc", "Foo/Bindings.xml", "Foo/x.png"]);
    let mut there = scan_tree("/other/place/", &["Foo/x.png", "Foo/Bindings.xml", "Foo/Foo.toc"]);
    here.sort();
    there.sort();
    assert_eq!(here, there);
    assert_eq!(
        here,
        ["Foo/Bindings.xml", "Foo/Foo.toc", "Foo/a.xml", "Foo/b.lua", "Foo/c.lua", "Foo/d.lua"]
    );
}

#[test]
fn scans_of_chains_end() {
    let patterns = wow();
    let mut scan = DirScan::new(&patterns, &vec![file("Foo/Foo.toc")]).unwrap();
    let mut event = ScanEvent::Start;
    let mut steps = 0;
    let hashed = loop {
        steps += 1;
        event = match scan.step(event) {
            ScanAction::TellExtension(path) => {
                ScanEvent::Extension(path.rsplit('.').next().map(|e| e.to_string()))
            }
            // Each file names the next one twice.
            ScanAction::ReadText(path) => ScanEvent::Text(match path.as_str() {
                "/addons/Foo/Foo.toc" => "x.xml\nx.xml".to_string(),
                "x.xml" => "<Script file=\"y.xml\"/><Script file=\"y.xml\"/>".to_string(),
                _ => String::new(),
            }),
            ScanAction::FindFiles(_, names) => ScanEvent::Found(Some(names)),
            ScanAction::Hash(paths) => break paths,
            other => panic!("{:?}", other),
        };
    };
    assert_eq!(hashed, ["/addons/Foo/Foo.toc", "x.xml", "y.xml"]);
    // One file, the next one twice, the last one four times, with three questions about each.
    assert_eq!(steps, 3 * 7 + 1);
}

#[test]
fn scans_without_a_fingerprint() {
    let patterns = wow();
    let begin = || {
        let mut scan = DirScan::new(&patterns, &vec![file("Foo/Foo.toc")]).unwrap();
        scan.step(ScanEvent::Start);
        scan
    };
    let mut scan = begin();
    assert_eq!(scan.step(ScanEvent::Extension(None)), ScanAction::GiveUp);
    let mut scan = begin();
    scan.step(ScanEvent::Extension(Some("toc".to_string())));
    scan.step(ScanEvent::Text("gone.lua".to_string()));
    assert_eq!(scan.step(ScanEvent::Found(None)), ScanAction::GiveUp);
    let info = game("foo", "b", vec![rule(".f", "#", "x|(y)")]);
    let odd = compiled(&info);
    let mut scan = DirScan::new(&odd, &vec![file("Foo/Foo.toc")]).unwrap();
    scan.step(ScanEvent::Start);
    scan.step(ScanEvent::Extension(Some("f".to_string())));
    assert_eq!(scan.step(ScanEvent::Text("x".to_string())), ScanAction::GiveUp);
}

#[test]
fn a_search_without_end() {
    let info = game("foo", "b", vec![rule(".e", "#", "(?=(main))")]);
    let patterns = compiled(&info);
    let begin = || {
        let mut scan = DirScan::new(&patterns, &vec![file("Foo/Foo.e")]).unwrap();
        scan.step(ScanEvent::Start);
        scan.step(ScanEvent::Extension(Some("e".to_string())));
        assert_eq!(
            scan.step(ScanEvent::Text("main".to_string())),
            ScanAction::FindFiles("/addons/Foo/Foo.e".to_string(), vec!["main".to_string()])
        );
        scan
    };
    assert_eq!(begin().step(ScanEvent::Found(None)), ScanAction::GiveUp);
    assert_eq!(
        begin().step(ScanEvent::Found(Some(vec!["/addons/Foo/main".to_string()]))),
        ScanAction::Endless
    );
}

#[test]
fn a_scan_of_nothing() {
    let patterns = wow();
    let mut scan = DirScan::new(&patterns, &vec![file("Foo/readme.txt")]).unwrap();
    assert_eq!(scan.step(ScanEvent::Start), ScanAction::Hash(vec![]));
}

fn some(names: &[&str]) -> Vec<Option<String>> {
    names.iter().map(|n| Some(n.to_string())).collect()
}

#[test]
fn children_are_found_in_any_case() {
    let children = vec![None, Some("a".to_string()), Some("FOO".to_string()), Some("foo".to_string())];
    assert_eq!(find_child(&children, "Foo"), Some(2));
    assert_eq!(find_child(&children, "bar"), None);
    assert_eq!(find_child(&some(&["É"]), "é"), None);
}

#[test]
fn a_file_that_exists_is_found_at_once() {
    let mut search = FileSearch::new();
    assert_eq!(search.step(FindEvent::Exists), FindAction::Found);
}

#[test]
fn a_file_in_the_wrong_case_is_found() {
    let mut search = FileSearch::new();
    let missing = |s: &str| FindEvent::Missing(Some(s.to_string()));
    assert_eq!(search.step(missing("MAIN.lua")), FindAction::GoUp);
    assert_eq!(search.step(missing("Libs")), FindAction::GoUp);
    assert_eq!(search.step(FindEvent::Exists), FindAction::List);
    let children = FindEvent::Children(Some(some(&["main.lua", "libs"])));
    assert_eq!(search.step(children), FindAction::Enter(1));
    assert_eq!(search.step(FindEvent::Entered), FindAction::List);
    let children = FindEvent::Children(Some(some(&["Main.lua"])));
    assert_eq!(search.step(children), FindAction::Enter(0));
    assert_eq!(search.step(FindEvent::Entered), FindAction::Found);
}

#[test]
fn searches_for_files_that_do_not_exist() {
    let mut search = FileSearch::new();
    assert_eq!(search.step(FindEvent::Missing(None)), FindAction::GiveUp);
    for children in [None, Some(some(&["b"]))] {
        let mut search = FileSearch::new();
        search.step(FindEvent::Missing(Some("a".to_string())));
        assert_eq!(search.step(FindEvent::Exists), FindAction::List);
        assert_eq!(search.step(FindEvent::Children(children)), FindAction::GiveUp);
    }
}
