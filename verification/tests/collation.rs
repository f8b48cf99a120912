use std::cmp::Ordering;

use toshokan::builder::build_table;
use toshokan::collate::find_cea;
use toshokan::collate::{build_sort_key, get_collate_elements, Key};
use toshokan::table::{derive_weight, lookup};
use toshokan::collate;
use toshokan::parser::{Kind, LineParser};
use toshokan::sort_key;
use toshokan::WeightTable;

const WEIGHTS: &str = "\
@version 10.0.0
% a small default table for the tests
@implicitweights 0000..10000 ; FB40
@implicitweights 10000..110000 ; FBC0

0002 ; [.0000.0000.0004] % a tertiary-only control
0061 ; [.1C47.0020.0002] % a
0062 ; [.1C60.0020.0002] % b
0063 ; [.1C7A.0020.0002] % c
0068 ; [.1C8E.0020.0002] % h
0063 0068 ; [.1CAA.0020.0002] % ch digraph
0301 ; [.0000.0024.0002] % combining acute
0061 0306 ; [.1C48.0020.0002] % a with breve
";

fn table() -> WeightTable {
    let mut parser = LineParser::new(WEIGHTS);
    let mut kinds = Vec::new();
    loop {
        match parser.parse_line().expect("the test table parses") {
            Kind::EOF => break,
            k => kinds.push(k),
        }
    }
    build_table(kinds).expect("the test table builds")
}

#[test]
fn single_letters_in_order() {
    let t = table();
    assert_eq!(collate(&t, "a", "b"), Ordering::Less);
    assert_eq!(collate(&t, "b", "a"), Ordering::Greater);
}

#[test]
fn identical_text_is_equal() {
    let t = table();
    assert_eq!(collate(&t, "a", "a"), Ordering::Equal);
    assert_eq!(collate(&t, "", ""), Ordering::Equal);
}

#[test]
fn reflexive_on_unlisted_text() {
    let t = table();
    assert_eq!(collate(&t, "\u{4E8C}\u{AD}x", "\u{4E8C}\u{AD}x"), Ordering::Equal);
}

#[test]
fn antisymmetric_pairs() {
    let t = table();
    let words = ["a", "b", "ab", "ch", "\u{E1}"];
    for x in words {
        for y in words {
            match collate(&t, x, y) {
                Ordering::Less => assert_eq!(collate(&t, y, x), Ordering::Greater),
                Ordering::Equal => assert_eq!(collate(&t, y, x), Ordering::Equal),
                Ordering::Greater => assert_eq!(collate(&t, y, x), Ordering::Less),
            }
        }
    }
}

#[test]
fn transitive_triple() {
    let t = table();
    assert_eq!(collate(&t, "a", "b"), Ordering::Less);
    assert_eq!(collate(&t, "b", "h"), Ordering::Less);
    assert_eq!(collate(&t, "a", "h"), Ordering::Less);
}

#[test]
fn plain_letter_sort_key() {
    let t = table();
    assert_eq!(sort_key(&t, "a"), vec![0x1C47, 0, 0x20, 0, 2]);
}

#[test]
fn empty_string_sort_key() {
    let t = table();
    assert_eq!(sort_key(&t, ""), vec![0, 0]);
}

#[test]
fn prefix_key_collates_less() {
    let t = table();
    // The control codepoint adds only a tertiary weight, so one sort
    // key is a strict prefix of the other.
    let a = sort_key(&t, "a");
    let b = sort_key(&t, "a\u{2}");
    assert_eq!(b[..a.len()], a[..]);
    assert!(a.len() < b.len());
    assert_eq!(collate(&t, "a", "a\u{2}"), Ordering::Less);
}

#[test]
fn normalization_equivalence() {
    let t = table();
    // Precomposed a-acute decomposes to the same codepoints.
    assert_eq!(sort_key(&t, "\u{E1}"), sort_key(&t, "a\u{301}"));
    assert_eq!(collate(&t, "\u{E1}", "a\u{301}"), Ordering::Equal);
    assert_eq!(sort_key(&t, "a\u{301}"), vec![0x1C47, 0, 0x20, 0x24, 0, 2, 2]);
}

#[test]
fn digraph_matches_as_one_unit() {
    let t = table();
    // The two-codepoint entry wins over two single lookups.
    assert_eq!(sort_key(&t, "ch"), vec![0x1CAA, 0, 0x20, 0, 2]);
    // Compared individually the pair would start with c's weight.
    assert_eq!(sort_key(&t, "cc")[0], 0x1C7A);
    assert_eq!(collate(&t, "h", "ch"), Ordering::Less);
}

#[test]
fn discontiguous_match_extends() {
    let t = table();
    // The acute (combining class 230) does not block the breve from
    // joining the a+breve entry.
    assert_eq!(sort_key(&t, "a\u{301}\u{306}"), sort_key(&t, "a\u{306}\u{301}"));
    assert_eq!(sort_key(&t, "a\u{306}"), vec![0x1C48, 0, 0x20, 0, 2]);
    assert_eq!(sort_key(&t, "a\u{301}\u{306}"), vec![0x1C48, 0, 0x20, 0x24, 0, 2, 2]);
}

#[test]
fn soft_hyphen_blocks_extension() {
    let t = table();
    // a + SOFT HYPHEN + breve must not match the a+breve entry.
    let blocked = sort_key(&t, "a\u{AD}\u{306}");
    assert_eq!(blocked[0], 0x1C47);
    assert_ne!(blocked, sort_key(&t, "a\u{306}"));
    // Without the blocker the discontiguous match happens.
    assert_eq!(sort_key(&t, "a\u{306}")[0], 0x1C48);
}

#[test]
fn unlisted_codepoints_get_derived_weights() {
    let t = table();
    // CJK ideographs are not listed; they fall into the first range.
    assert_eq!(sort_key(&t, "\u{4E00}"), vec![0xFB40, 0xCE00, 0, 0x20, 0, 2]);
    assert_eq!(collate(&t, "\u{4E00}", "\u{4E01}"), Ordering::Less);
    // A codepoint of the second (supplementary) range.
    assert_eq!(sort_key(&t, "\u{10000}"), vec![0xFBC0, 0x8000, 0, 0x20, 0, 2]);
    assert_eq!(collate(&t, "\u{10000}", "\u{10001}"), Ordering::Less);
}

#[test]
fn derived_weights_injective_sample() {
    let t = table();
    // Distinct codepoints of one range never collide, also across the
    // split boundary.
    assert_ne!(sort_key(&t, "\u{7FFF}"), sort_key(&t, "\u{8000}"));
    assert_eq!(collate(&t, "\u{7FFF}", "\u{8000}"), Ordering::Less);
}

#[test]
fn conformance_monotonic() {
    let t = table();
    // A reference list in collation order: adjacent pairs never
    // compare Greater.
    let sorted = [
        "",
        "a",
        "\u{E1}",
        "ab",
        "b",
        "h",
        "ch",
        "\u{4E00}",
        "\u{4E01}",
        "\u{10000}",
    ];
    for pair in sorted.windows(2) {
        assert_ne!(
            collate(&t, pair[0], pair[1]),
            Ordering::Greater,
            "{:?} should not sort after {:?}",
            pair[0],
            pair[1]
        );
    }
}

#[test]
fn find_cea_consumes_a_prefix() {
    let t = table();
    // "ch" followed by "a": the first call consumes the digraph.
    let mut buf: Vec<u32> = vec![0x63, 0x68, 0x61];
    let cea = find_cea(&t, &mut buf);
    assert_eq!(buf, vec![0x61]);
    assert_eq!(cea.inner.len(), 1);
    assert_eq!(cea.inner[0].primary, 0x1CAA);
    let cea2 = find_cea(&t, &mut buf);
    assert!(buf.is_empty());
    assert_eq!(cea2.inner[0].primary, 0x1C47);
}

#[test]
fn lookup_finds_only_whole_keys() {
    let t = table();
    let hit = lookup(&t, &vec![0x63, 0x68]).expect("the digraph is listed");
    assert_eq!(hit[0].primary, 0x1CAA);
    assert!(lookup(&t, &vec![0x63, 0x69]).is_none());
}

#[test]
fn derive_weight_splits_the_codepoint() {
    let t = table();
    let pair = derive_weight(&t, 0x4E00);
    assert_eq!(pair.len(), 2);
    assert_eq!(pair[0].primary, 0xFB40);
    assert_eq!(pair[1].primary, 0xCE00);
    assert_eq!(pair[0].secondary, 0x20);
    assert_eq!(pair[1].secondary, 0);
}

#[test]
fn key_compare_is_lexicographic() {
    let t = table();
    let ka = Key { inner: build_sort_key(get_collate_elements(&t, "a")) };
    let kb = Key { inner: build_sort_key(get_collate_elements(&t, "b")) };
    assert_eq!(ka.compare(&kb), Ordering::Less);
    assert_eq!(kb.compare(&ka), Ordering::Greater);
    assert_eq!(ka.compare(&ka), Ordering::Equal);
    assert_eq!(ka.inner, sort_key(&t, "a"));
}
