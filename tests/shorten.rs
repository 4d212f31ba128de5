use rename_for_linux_limit::candidate::new_candidate_filename;
use rename_for_linux_limit::components::{split_into_components, split_slug, SlugComponent};
use rename_for_linux_limit::driver::{new_filename, Config, Error};

const CJK_90: &str = "一二三四五六七八九十一二三四五六七八九十一二三四五六七八九十一二三四五六七八九十一二三四五六七八九十一二三四五六七八九十一二三四五六七八九十一二三四五六七八九十一二三四五六七八九十";
const CJK_85: &str = "一二三四五六七八九十一二三四五六七八九十一二三四五六七八九十一二三四五六七八九十一二三四五六七八九十一二三四五六七八九十一二三四五六七八九十一二三四五六七八九十一二三四五";
const CJK_84_DOT_1: &str = "一二三四五六七八九十一二三四五六七八九十一二三四五六七八九十一二三四五六七八九十一二三四五六七八九十一二三四五六七八九十一二三四五六七八九十一二三四五六七八九十一二三四.1";

fn comp(tag: &str) -> SlugComponent {
    SlugComponent { delimiter: '.', tag: tag.to_string() }
}

fn no_rules() -> (Vec<String>, Vec<(String, String)>) {
    (Vec::new(), Vec::new())
}

#[test]
fn test_split_into_components() {
    let slug = "a.b.c..d";
    let components = split_into_components(slug, &Vec::new());
    assert_eq!(components, ("a".to_string(), vec![comp("b"), comp("c"), comp(""), comp("d")]));

    let slug = ".あああ.いいい.ううう";
    let components = split_into_components(slug, &Vec::new());
    assert_eq!(components, (".あああ".to_string(), vec![comp("いいい"), comp("ううう")]));
}

#[test]
fn test_new_filename() {
    let config = Config::default();
    assert_eq!(
        new_filename(".", true, &config, |_: &String| false).err().unwrap().message(),
        "Filename not found in path: ."
    );

    assert_eq!(new_filename("a.b.c.txt", true, &config, |_: &String| false).unwrap(), "a.b.c.txt");
    assert_eq!(new_filename("a.b.c.txt", false, &config, |_: &String| false).unwrap(), "a.b.c.txt");

    assert_eq!(
        new_filename(CJK_90, true, &config, |p: &String| p.as_str() == CJK_85).unwrap(),
        CJK_84_DOT_1
    );
    assert_eq!(
        new_filename("a.b.c.txt", false, &config, |p: &String| p.as_str() == "a.b.c.txt").unwrap(),
        "a.b.c.1.txt"
    );
    assert_eq!(
        new_filename("a.b.c.txt", false, &config, |p: &String| {
            p.as_str() == "a.b.c.txt" || p.as_str() == "a.b.c.1.txt"
        })
        .unwrap(),
        "a.b.c.2.txt"
    );
}

#[test]
fn test_new_candidate_filename() {
    let (ignored_tags, tag_conversion_map) = no_rules();
    assert_eq!(new_candidate_filename("a.b.c..d", &ignored_tags, &tag_conversion_map, 0), "a.b.c..d");
    assert_eq!(new_candidate_filename("a.b.c..d", &ignored_tags, &tag_conversion_map, 1), "a.b.c..1.d");
    assert_eq!(new_candidate_filename("一二三四五六七八九十一二三四五六七八九十一二三四五六七八九十一二三四五六七八九十一二三四五六七八九十一二三四五六七八九十一二三四五六七八九十一二三四五六七八九十一二三四五", &ignored_tags, &tag_conversion_map, 0), "一二三四五六七八九十一二三四五六七八九十一二三四五六七八九十一二三四五六七八九十一二三四五六七八九十一二三四五六七八九十一二三四五六七八九十一二三四五六七八九十一二三四五");
    assert_eq!(new_candidate_filename(".一二三四五六七八九十一二三四五六七八九十一二三四五六七八九十一二三四五六七八九十一二三四五六七八九十一二三四五六七八九十一二三四五六七八九十一二三四五六七八九十一二三四五", &ignored_tags, &tag_conversion_map, 0), ".一二三四五六七八九十一二三四五六七八九十一二三四五六七八九十一二三四五六七八九十一二三四五六七八九十一二三四五六七八九十一二三四五六七八九十一二三四五六七八九十一二三四");
    assert_eq!(new_candidate_filename("一二三四五六七八九十一二三四五六七八九十一二三四五六七八九十一二三四五六七八九十一二三四五六七八九十一二三四五六七八九十一二三四五六七八九十一二三四五六七八九十一二三四五六七八九十", &ignored_tags, &tag_conversion_map, 0), "一二三四五六七八九十一二三四五六七八九十一二三四五六七八九十一二三四五六七八九十一二三四五六七八九十一二三四五六七八九十一二三四五六七八九十一二三四五六七八九十一二三四五");
    assert_eq!(new_candidate_filename("一二三四五六七八九十一二三四五六七八九十一二三四五六七八九十一二三四五六七八九十一二三四五六七八九十一二三四五六七八九十一二三四五六七八九十一二三四五六七八九十一二三四五", &ignored_tags, &tag_conversion_map, 1), "一二三四五六七八九十一二三四五六七八九十一二三四五六七八九十一二三四五六七八九十一二三四五六七八九十一二三四五六七八九十一二三四五六七八九十一二三四五六七八九十一二三四.1");
    assert_eq!(new_candidate_filename(".一二三四五六七八九十一二三四五六七八九十一二三四五六七八九十一二三四五六七八九十一二三四五六七八九十一二三四五六七八九十一二三四五六七八九十一二三四五六七八九十一二三四五", &ignored_tags, &tag_conversion_map, 11), ".一二三四五六七八九十一二三四五六七八九十一二三四五六七八九十一二三四五六七八九十一二三四五六七八九十一二三四五六七八九十一二三四五六七八九十一二三四五六七八九十一二三.11");
}

#[test]
fn short_name_in_same_directory_is_kept() {
    let config = Config::default();
    let name = "x".repeat(255);
    assert_eq!(new_filename(&name, true, &config, |_: &String| true).unwrap(), name);
    let nested = format!("dir/{}", "a.b.a.b.txt");
    assert_eq!(new_filename(&nested, true, &config, |_: &String| true).unwrap(), "a.b.a.b.txt");
}

#[test]
fn every_candidate_fits_the_limit() {
    let (ignored_tags, tag_conversion_map) = no_rules();
    let long = format!("{}.{}.{}.tar", "長".repeat(60), "tag".repeat(30), "é".repeat(50));
    for n in [0usize, 1, 9, 10, 99, 12345, usize::MAX] {
        let c = new_candidate_filename(&long, &ignored_tags, &tag_conversion_map, n);
        assert!(c.len() <= 255, "{} bytes for counter {}", c.len(), n);
    }
    let c = new_candidate_filename(&long, &ignored_tags, &tag_conversion_map, usize::MAX);
    assert!(c.ends_with(&format!(".{}.tar", usize::MAX)));
}

#[test]
fn truncation_keeps_whole_characters() {
    let (ignored_tags, tag_conversion_map) = no_rules();
    // 128 two-byte characters: 256 bytes, one byte over the limit.
    let name = "é".repeat(128);
    let c = new_candidate_filename(&name, &ignored_tags, &tag_conversion_map, 0);
    assert_eq!(c, "é".repeat(127));
    // Four-byte characters leave three bytes unused.
    let name = "𝄞".repeat(70);
    let c = new_candidate_filename(&name, &ignored_tags, &tag_conversion_map, 0);
    assert_eq!(c, "𝄞".repeat(63));
    assert_eq!(c.len(), 252);
}

#[test]
fn extension_is_preserved_with_counter_before_it() {
    let (ignored_tags, tag_conversion_map) = no_rules();
    let name = format!("{}.jpeg", "p".repeat(300));
    let c0 = new_candidate_filename(&name, &ignored_tags, &tag_conversion_map, 0);
    assert_eq!(c0, format!("{}.jpeg", "p".repeat(250)));
    let c3 = new_candidate_filename(&name, &ignored_tags, &tag_conversion_map, 3);
    assert_eq!(c3, format!("{}.3.jpeg", "p".repeat(248)));
}

#[test]
fn long_extension_is_part_of_the_slug() {
    let (ignored_tags, tag_conversion_map) = no_rules();
    assert_eq!(new_candidate_filename("report.backup", &ignored_tags, &tag_conversion_map, 2), "report.backup.2");
    assert_eq!(new_candidate_filename(".bashrc", &ignored_tags, &tag_conversion_map, 1), ".bashrc.1");
    assert_eq!(new_candidate_filename("README", &ignored_tags, &tag_conversion_map, 0), "README");
    assert_eq!(new_candidate_filename("README", &ignored_tags, &tag_conversion_map, 7), "README.7");
}

#[test]
fn retry_candidates_are_distinct() {
    let (ignored_tags, tag_conversion_map) = no_rules();
    let name = format!("{}.v2.mp4", "m".repeat(260));
    let mut seen: Vec<String> = Vec::new();
    for n in 0..25usize {
        let c = new_candidate_filename(&name, &ignored_tags, &tag_conversion_map, n);
        assert!(!seen.contains(&c), "counter {} repeats {}", n, c);
        seen.push(c);
    }
}

#[test]
fn counter_zero_can_meet_counter_one() {
    // A kept ".1" tag at counter 0 reads like the counter of retry 1.
    let (ignored_tags, tag_conversion_map) = no_rules();
    let name = format!("{}.1.txt", "f".repeat(249));
    let c0 = new_candidate_filename(&name, &ignored_tags, &tag_conversion_map, 0);
    let c1 = new_candidate_filename(&name, &ignored_tags, &tag_conversion_map, 1);
    assert_eq!(c0, format!("{}.1.txt", "f".repeat(249)));
    assert_eq!(c0, c1);
}

#[test]
fn ignored_tags_are_dropped() {
    let ignored_tags = vec!["draft".to_string()];
    let tag_conversion_map = Vec::new();
    assert_eq!(new_candidate_filename("photo.draft.v1.jpg", &ignored_tags, &tag_conversion_map, 0), "photo.v1.jpg");
}

#[test]
fn ignored_tags_match_after_normalization() {
    // The tag is written precomposed; the ignored entry is decomposed.
    let ignored_tags = vec!["cafe\u{301}".to_string()];
    let tag_conversion_map = Vec::new();
    assert_eq!(new_candidate_filename("menu.caf\u{e9}.pdf", &ignored_tags, &tag_conversion_map, 0), "menu.pdf");
}

#[test]
fn duplicate_tags_collapse_to_one() {
    let (ignored_tags, tag_conversion_map) = no_rules();
    assert_eq!(new_candidate_filename("a.x.b.x.txt", &ignored_tags, &tag_conversion_map, 0), "a.x.b.txt");
    let tag_conversion_map = vec![("hd".to_string(), "1080p".to_string())];
    assert_eq!(
        new_candidate_filename("movie.1080p.hd.mkv", &ignored_tags, &tag_conversion_map, 0),
        "movie.1080p.mkv"
    );
}

#[test]
fn conversions_replace_tags() {
    let ignored_tags = Vec::new();
    let tag_conversion_map = vec![("e\u{301}te\u{301}".to_string(), "summer".to_string())];
    assert_eq!(
        new_candidate_filename("trip.\u{e9}t\u{e9}.png", &ignored_tags, &tag_conversion_map, 0),
        "trip.summer.png"
    );
    let (first, comps) = split_into_components("trip.\u{e9}t\u{e9}.x", &tag_conversion_map);
    assert_eq!(first, "trip");
    assert_eq!(comps, vec![comp("summer"), comp("x")]);
}

#[test]
fn shorter_tags_survive_when_space_is_tight() {
    let (ignored_tags, tag_conversion_map) = no_rules();
    let name = format!("{}.{}.v1.txt", "a".repeat(200), "b".repeat(60));
    let c = new_candidate_filename(&name, &ignored_tags, &tag_conversion_map, 0);
    assert_eq!(c, format!("{}.{}.v1.txt", "a".repeat(200), "b".repeat(47)));
    assert_eq!(c.len(), 255);
}

#[test]
fn no_budget_left_drops_all_tags() {
    let (ignored_tags, tag_conversion_map) = no_rules();
    let name = format!("{}.x.y.txt", "a".repeat(251));
    let c = new_candidate_filename(&name, &ignored_tags, &tag_conversion_map, 0);
    assert_eq!(c, format!("{}.txt", "a".repeat(251)));
}

#[test]
fn split_slug_keeps_raw_tags() {
    let (first, comps) = split_slug("a..b");
    assert_eq!(first, "a");
    assert_eq!(comps, vec![comp(""), comp("b")]);
    let (first, comps) = split_slug("");
    assert_eq!(first, "");
    assert!(comps.is_empty());
    let (first, comps) = split_slug(".");
    assert_eq!(first, ".");
    assert!(comps.is_empty());
}

#[test]
fn config_rules_are_normalized() {
    let config = Config {
        ignored_tags: vec!["brouillon\u{e9}".to_string()],
        conversions: vec![("caf\u{e9}".to_string(), "coffee".to_string())],
    };
    let taken = |p: &String| p.as_str() == "doc.brouillone\u{301}.cafe\u{301}.odt";
    assert_eq!(
        new_filename("doc.brouillone\u{301}.cafe\u{301}.odt", false, &config, taken).unwrap(),
        "doc.coffee.odt"
    );
}

#[test]
fn error_messages() {
    assert_eq!(
        Error::FilenameNotFound("/".to_string()).message(),
        "Filename not found in path: /"
    );
    assert_eq!(
        Error::RetriesExhausted("a.txt".to_string()).message(),
        "No free file name for: a.txt"
    );
    assert!(matches!(
        new_filename("dir/..", true, &Config::default(), |_: &String| false),
        Err(Error::FilenameNotFound(p)) if p == "dir/.."
    ));
}

#[test]
fn long_cjk_name_is_cut_to_whole_characters() {
    let config = Config::default();
    assert_eq!(new_filename(CJK_90, true, &config, |_: &String| false).unwrap(), CJK_85);
}

#[test]
fn component_text_and_size() {
    let c = comp("いいい");
    assert_eq!(c.to_text(), ".いいい");
    assert_eq!(c.n_bytes(), 10);
    assert_eq!(comp("").n_bytes(), 1);
}
