use addon_parse::directory::{
    apply_curse_packages, apply_exact_matches, apply_tukui_packages, curse_id_only_addons,
    curse_ids, find_by_curse_id, find_by_tukui_id, find_match, fingerprint_hashes, tukui_ids,
    Answers, ExactMatch,
};
use addon_parse::link::link_dependencies_bidirectional;
use addon_parse::{read_addon_directory, Addon};

fn addon(id: &str, tukui: Option<&str>, curse: Option<u32>, hash: Option<u32>) -> Addon {
    let mut addon = Addon::new(
        id.to_string(),
        id.to_string(),
        None,
        None,
        None,
        format!("/addons/{}", id),
        vec![],
        None,
        tukui.map(|t| t.to_string()),
        curse,
    );
    addon.fingerprint = hash;
    addon
}

fn with_dependencies(id: &str, dependencies: &[&str]) -> Addon {
    let mut a = addon(id, None, None, None);
    a.dependencies = dependencies.iter().map(|d| d.to_string()).collect();
    a
}

fn info(id: u32, fingerprints: &[u32]) -> ExactMatch {
    ExactMatch { id, module_fingerprints: fingerprints.to_vec() }
}

fn noted(addon: &Addon, what: String) -> Addon {
    let mut a = addon.clone();
    a.version = Some(match a.version {
        Some(before) => format!("{} {}", before, what),
        None => what,
    });
    a
}

fn versions(addons: &[Addon]) -> Vec<(String, String)> {
    addons.iter().map(|a| (a.id.clone(), a.version.clone().unwrap_or_default())).collect()
}

fn pairs(list: &[(&str, &str)]) -> Vec<(String, String)> {
    list.iter().map(|(a, b)| (a.to_string(), b.to_string())).collect()
}

#[test]
fn dependencies_are_linked_both_ways() {
    let all = vec![
        with_dependencies("Foo", &[]),
        with_dependencies("Bar", &["Foo"]),
        with_dependencies("Baz", &["Foo"]),
    ];
    let mut linked = all.clone();
    link_dependencies_bidirectional(&mut linked, &all);
    assert_eq!(linked[0].dependencies, ["Bar", "Baz"]);
    assert_eq!(linked[1].dependencies, ["Foo"]);
    assert_eq!(linked[2].dependencies, ["Foo"]);
    assert_eq!(linked[0].id, "Foo");
}

#[test]
fn only_neighbouring_repeats_are_removed() {
    let all = vec![with_dependencies("A", &["X", "X"]), with_dependencies("B", &["X"])];
    let mut linked = vec![with_dependencies("X", &["B", "B", "A", "C", "C"])];
    link_dependencies_bidirectional(&mut linked, &all);
    assert_eq!(linked[0].dependencies, ["B", "A", "C", "A", "B"]);
    let mut own = vec![with_dependencies("X", &["A"])];
    link_dependencies_bidirectional(&mut own, &all);
    assert_eq!(own[0].dependencies, ["A", "B"]);
}

#[test]
fn what_is_asked() {
    let addons = vec![
        addon("A", Some("1"), Some(10), Some(100)),
        addon("B", None, Some(20), Some(200)),
        addon("C", None, None, Some(300)),
        addon("D", None, Some(40), None),
        addon("E", Some("1"), None, None),
    ];
    assert_eq!(tukui_ids(&addons), ["1", "1"]);
    assert_eq!(fingerprint_hashes(&addons), [200, 300]);
    assert_eq!(curse_ids(&addons), [20, 40]);
}

#[test]
fn addons_are_found() {
    let addons = vec![
        addon("A", Some("1"), Some(10), Some(100)),
        addon("B", Some("1"), Some(10), Some(200)),
        addon("C", None, None, Some(200)),
    ];
    assert_eq!(find_by_tukui_id(&addons, "1"), Some(0));
    assert_eq!(find_by_tukui_id(&addons, "2"), None);
    assert_eq!(find_by_curse_id(&addons, 10), Some(0));
    assert_eq!(find_by_curse_id(&addons, 11), None);
    assert_eq!(find_match(&addons, &info(10, &[200])), Some(0));
    assert_eq!(find_match(&addons, &info(11, &[300, 200])), Some(1));
    assert_eq!(find_match(&addons, &info(11, &[])), None);
}

#[test]
fn tukui_packages_are_applied_to_the_first_addon() {
    let addons = vec![
        addon("A", Some("1"), None, None),
        addon("B", Some("2"), None, None),
        addon("C", Some("1"), None, None),
    ];
    let applied =
        apply_tukui_packages(&addons, &vec![true, false, true], |a: &Addon, j| noted(a, j.to_string()));
    assert_eq!(versions(&applied), pairs(&[("A", "0"), ("A", "2")]));
}

#[test]
fn matches_are_applied() {
    let addons = vec![addon("A", None, Some(10), None), addon("B", None, None, Some(200))];
    let infos = vec![info(99, &[1]), info(98, &[200]), info(10, &[200])];
    let applied = apply_exact_matches(&addons, &infos, |a: &Addon, j| noted(a, j.to_string()));
    assert_eq!(versions(&applied), pairs(&[("B", "1"), ("A", "2")]));
}

#[test]
fn addons_known_only_by_id() {
    let addons = vec![
        addon("A", None, Some(1), None),
        addon("B", None, Some(2), None),
        addon("C", Some("x"), Some(3), None),
        addon("D", None, None, None),
    ];
    let only = curse_id_only_addons(&addons, &vec![addon("B", None, None, None)]);
    assert_eq!(versions(&only), pairs(&[("A", "")]));
}

#[test]
fn curse_packages_see_what_was_applied_before() {
    let mut addons = vec![addon("A", None, Some(1), None), addon("B", None, Some(1), None)];
    apply_curse_packages(&mut addons, &vec![1, 5, 1, 7], true, &|a: &Addon, j: usize, fp: bool| {
        let mut a = noted(a, format!("{}{}", j, fp));
        a.curse_id = Some(7);
        a
    });
    assert_eq!(versions(&addons), pairs(&[("A", "0true 3true"), ("B", "2true")]));
}

fn a_directory() -> Vec<Addon> {
    let mut helper = addon("Helper", None, None, None);
    helper.dependencies = vec!["Tuk".to_string()];
    vec![
        addon("Tuk", Some("7"), Some(70), Some(700)),
        addon("ById", None, Some(10), Some(100)),
        addon("ByHash", None, None, Some(200)),
        addon("OnlyId", None, Some(30), Some(300)),
        helper,
    ]
}

fn read(answers: &Answers) -> Vec<Addon> {
    read_addon_directory(
        &a_directory(),
        answers,
        |a: &Addon, j: usize| noted(a, format!("t{}", j)),
        |a: &Addon, j: usize| {
            let mut a = noted(a, format!("m{}", j));
            a.curse_id = Some([10, 20][j]);
            a
        },
        |a: &Addon, j: usize, fp: bool| noted(a, format!("c{}{}", j, if fp { "f" } else { "i" })),
    )
}

#[test]
fn a_whole_directory() {
    let addons = read(&Answers {
        tukui_fetched: vec![true],
        exact_matches: vec![info(10, &[1]), info(20, &[200])],
        curse_packages: Some(vec![20, 30, 70]),
    });
    assert_eq!(
        versions(&addons),
        pairs(&[("ById", "m0"), ("ByHash", "m1 c0f"), ("Tuk", "t0"), ("OnlyId", "c1i")])
    );
    assert_eq!(addons[2].dependencies, ["Helper"]);
}

#[test]
fn a_directory_without_answers() {
    let addons =
        read(&Answers { tukui_fetched: vec![false], exact_matches: vec![], curse_packages: None });
    assert_eq!(versions(&addons), pairs(&[("ById", ""), ("OnlyId", "")]));
}
