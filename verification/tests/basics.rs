use knives::bind::{remote_slug, same_remote, url_owner, without_git};
use knives::cli::Exit;
use knives::columns::{align, align_right, length};
use knives::ids::{
    is_release_name, pull_number_from_bookmark, short_id, strict_dated_release, BookmarkRef, BranchName, CommitId,
    DatedRelease, ReleaseScheme,
};
use knives::ledger::inline_human_text;
use knives::order::OrdMap;
use knives::paths::{directory, join_path};
use knives::pieces::{lines, pad, parse_u64, split, split_once, trim_end, words};
use knives::pins::is_pin_file;
use knives::release_model::release_precedes;
use knives::sorting::sort_texts;
use knives::text::{decimal, eq_ignore_case, replace_char, shortened, text_precedes};

fn texts(list: &[&str]) -> Vec<String> {
    list.iter().map(|text| (*text).to_owned()).collect()
}

#[test]
fn a_map_keeps_its_keys_in_order_and_one_value_for_each() {
    let mut map: OrdMap<String, u64> = OrdMap::new();
    assert!(map.is_empty());
    map.insert("b".to_owned(), 2);
    map.insert("a".to_owned(), 1);
    map.insert("b".to_owned(), 3);
    map.insert("é".to_owned(), 4);
    assert_eq!(map.len(), 3);
    assert_eq!(map.key(0), "a");
    assert_eq!(map.get(&"b".to_owned()), Some(&3));
    assert_eq!(map.position(&"é".to_owned()), Some(2));
    assert_eq!(map.get(&"c".to_owned()), None);
    map.replace(0, 9);
    assert_eq!(map.value(0), &9);
}

#[test]
fn a_bookmark_reads_back_from_its_text() {
    for text in ["feat/a", "feat/a@origin", "release/2026-08-01@release"] {
        assert_eq!(BookmarkRef::parse(text).to_text(), text);
    }
    assert!(BookmarkRef::parse("feat/a").is_local());
    assert_eq!(BookmarkRef::parse("feat/a@origin").branch(), &BranchName::new("feat/a"));
}

#[test]
fn a_number_reads_back_from_its_digits() {
    for number in [0, 7, 10, 4677, u64::MAX] {
        assert_eq!(parse_u64(&decimal(number)), Some(number));
    }
    assert_eq!(parse_u64("18446744073709551616"), None);
    assert_eq!(parse_u64(""), None);
    assert_eq!(parse_u64("12x"), None);
}

#[test]
fn a_dated_release_is_a_day_and_perhaps_a_counter() {
    assert_eq!(
        strict_dated_release("release/2026-08-05"),
        Some(DatedRelease {
            day: 20260805,
            suffix: None
        })
    );
    assert_eq!(
        strict_dated_release("release/2026-08-05.2"),
        Some(DatedRelease {
            day: 20260805,
            suffix: Some(2)
        })
    );
    for name in ["release/0.3.190", "release/next", "feat/2026-08-05", "release/2026-8-5"] {
        assert_eq!(strict_dated_release(name), None, "{name}");
    }
    assert!(release_precedes("release/2026-08-05", "release/2026-08-05.2"));
    assert!(release_precedes("release/2026-08-05.2", "release/2026-08-05.10"));
    assert!(!release_precedes("release/2026-08-06", "release/2026-08-05.10"));
}

#[test]
fn a_release_name_follows_the_scheme() {
    let fixed = ReleaseScheme::Fixed(BranchName::new("integration"));
    assert!(is_release_name(&BranchName::new("integration"), &fixed));
    assert!(!is_release_name(&BranchName::new("release/2026-08-05"), &fixed));
    assert!(is_release_name(&BranchName::new("release/2026-08-05"), &ReleaseScheme::Dated));
    assert!(!is_release_name(&BranchName::new("feat/a"), &ReleaseScheme::Dated));
}

#[test]
fn a_pull_bookmark_carries_its_number() {
    assert_eq!(pull_number_from_bookmark("pull/10"), Some(10));
    assert_eq!(pull_number_from_bookmark("pull/x"), None);
    assert_eq!(pull_number_from_bookmark("feat/a"), None);
}

#[test]
fn an_id_is_abbreviated_to_twelve_characters() {
    assert_eq!(CommitId::new("0123456789abcdef").short(), "0123456789ab");
    assert_eq!(short_id("abc"), "abc");
    assert_eq!(shortened("grüße", 3), "grü");
}

#[test]
fn one_place_can_be_spelled_in_several_ways() {
    assert!(same_remote("https://forge.example/org/tool", "git@forge.example:org/tool.git"));
    assert!(!same_remote("https://forge.example/org/tool", "https://forge.example/org/other"));
    assert_eq!(remote_slug("git@forge.example:org/tool.git").as_deref(), Some("org/tool"));
    assert_eq!(url_owner("https://forge.example/org/tool").as_deref(), Some("org"));
    assert_eq!(without_git("tool.git"), "tool");
}

#[test]
fn columns_line_up() {
    assert_eq!(
        align(&vec![texts(&["a", "bb"]), texts(&["ccc", "d"])]),
        texts(&["    a    bb", "    ccc  d"])
    );
    assert_eq!(length("grüße"), 7, "in bytes");
    assert_eq!(align_right("7", 3), "  7");
    assert_eq!(pad("ab", 4), "ab  ");
    assert_eq!(pad("abcdef", 4), "abcdef");
}

#[test]
fn texts_are_split_and_joined_where_they_should_be() {
    assert_eq!(split_once("a/b/c", '/'), Some(("a".to_owned(), "b/c".to_owned())));
    assert_eq!(split_once("abc", '/'), None);
    assert_eq!(split("a//b", '/'), texts(&["a", "", "b"]));
    assert_eq!(lines("a\r\nb\n"), texts(&["a", "b"]));
    assert_eq!(words("  a \t b\n"), texts(&["a", "b"]));
    assert_eq!(trim_end("a \n"), "a");
    assert_eq!(replace_char("a_b_c", '_', '-'), "a-b-c");
    assert!(eq_ignore_case("OPEN", "open") && !eq_ignore_case("Ö", "ö"));
    assert!(text_precedes("a", "b") && !text_precedes("b", "a") && !text_precedes("a", "a"));
    assert_eq!(inline_human_text("a\nb\tc"), "a\\nb\\tc");
}

#[test]
fn paths_are_joined_and_cut_at_the_slash() {
    assert_eq!(join_path("/a", "b"), "/a/b");
    assert_eq!(join_path("/a/", "b"), "/a/b");
    assert_eq!(join_path("/a", "/b"), "/b");
    assert_eq!(directory("/a/b"), "/a");
    assert!(is_pin_file("uv.lock") && !is_pin_file("Cargo.lock"));
}

#[test]
fn sorted_texts_are_in_text_order() {
    let mut list = texts(&["b", "a", "B", "é", "a"]);
    sort_texts(&mut list);
    assert_eq!(list, texts(&["B", "a", "a", "b", "é"]));
}

#[test]
fn every_outcome_of_a_command_is_told_apart() {
    let all = [Exit::Clean, Exit::Findings, Exit::Incomplete, Exit::Usage];
    for (i, a) in all.iter().enumerate() {
        for (j, b) in all.iter().enumerate() {
            assert_eq!(i == j, a == b);
        }
    }
}
