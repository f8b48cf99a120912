use toshokan::builder::{build_table, BuildError};
use toshokan::collection::{Book, Library};
use toshokan::csv::Csv;
use toshokan::error::LibraryError;
use toshokan::parser::{parse_entry, parse_implicit_weight, parse_version, Kind, LineParser, ParseError};
use toshokan::stats::Statistics;
use toshokan::table::{Entry, ImplicitWeight};

#[test]
fn version_line_parses_hex() {
    match parse_version("@version 10.2.3").unwrap() {
        Kind::Version(v) => {
            assert_eq!(v.major, 0x10);
            assert_eq!(v.minor, 0x2);
            assert_eq!(v.variant, 0x3);
        }
        _ => panic!("expected a version"),
    }
}

#[test]
fn version_line_rejects_garbage() {
    assert!(parse_version("@version 10.2").is_err());
    assert!(parse_version("@version x.y.z").is_err());
}

#[test]
fn implicit_weight_line_parses() {
    match parse_implicit_weight("@implicitweights 17000..187F0 ; FB00").unwrap() {
        Kind::ImplicitWeight(iw) => {
            assert_eq!(iw.start, 0x17000);
            assert_eq!(iw.end, 0x187F0);
            assert_eq!(iw.weight, 0xFB00);
        }
        _ => panic!("expected an implicit weight"),
    }
}

#[test]
fn implicit_weight_line_needs_range() {
    assert!(parse_implicit_weight("@implicitweights 17000 ; FB00").is_err());
    assert!(parse_implicit_weight("@implicitweights 17000..187F0  FB00").is_err());
}

#[test]
fn entry_line_parses_expansion() {
    match parse_entry("0063 0068 ; [1CAA.0020.0002][0000.0024.0002]").unwrap() {
        Kind::Entry(e) => {
            assert_eq!(e.codepoints, vec![0x63, 0x68]);
            assert_eq!(e.collate_elements.len(), 2);
            assert_eq!(e.collate_elements[0].primary, 0x1CAA);
            assert_eq!(e.collate_elements[0].secondary, 0x20);
            assert_eq!(e.collate_elements[0].tertiary, 0x2);
            assert!(!e.collate_elements[0].variable);
            assert_eq!(e.collate_elements[1].secondary, 0x24);
        }
        _ => panic!("expected an entry"),
    }
}

#[test]
fn leading_star_marks_variable() {
    // The standard data writes a separator before the first weight; a
    // leading `*` marks the element variable.
    match parse_entry("0021 ; [*0260.0020.0002]").unwrap() {
        Kind::Entry(e) => {
            assert_eq!(e.collate_elements[0].primary, 0x260);
            assert!(e.collate_elements[0].variable);
        }
        _ => panic!("expected an entry"),
    }
}

#[test]
fn entry_line_accepts_leading_separator() {
    match parse_entry("0628 0651 ; [.28EF.0020.0002][.0000.00F2.0002]").unwrap() {
        Kind::Entry(e) => {
            assert_eq!(e.codepoints, vec![0x628, 0x651]);
            assert_eq!(e.collate_elements.len(), 2);
            assert_eq!(e.collate_elements[0].primary, 0x28EF);
            assert_eq!(e.collate_elements[0].secondary, 0x20);
            assert_eq!(e.collate_elements[0].tertiary, 0x2);
            assert!(!e.collate_elements[0].variable);
            assert_eq!(e.collate_elements[1].primary, 0);
            assert_eq!(e.collate_elements[1].secondary, 0xF2);
        }
        _ => panic!("expected an entry"),
    }
    match parse_entry("0061 ; [.1C47.0020.0008]").unwrap() {
        Kind::Entry(e) => {
            assert_eq!(e.collate_elements[0].tertiary, 0x8);
            assert!(!e.collate_elements[0].variable);
        }
        _ => panic!("expected an entry"),
    }
}

#[test]
fn entry_line_errors() {
    // No semicolon at all.
    assert_eq!(parse_entry("0061").unwrap_err(), ParseError::Malformed);
    // A malformed hex digit.
    assert_eq!(parse_entry("006G ; [1C47.0020.0002]").unwrap_err(), ParseError::BadHex);
    // An unterminated bracket.
    assert_eq!(
        parse_entry("0061 ; [1C47.0020.0002").unwrap_err(),
        ParseError::UnterminatedBracket
    );
    // Too few weight fields.
    assert!(parse_entry("0061 ; [1C47.0020]").is_err());
    // No elements at all.
    assert!(parse_entry("0061 ; ").is_err());
}

#[test]
fn line_parser_walks_significant_lines() {
    let text = "\
% comment only

@version 1.0.0
0061 ; [1C47.0020.0002] % letter a
";
    let mut p = LineParser::new(text);
    assert!(matches!(p.parse_line().unwrap(), Kind::Version(_)));
    assert!(matches!(p.parse_line().unwrap(), Kind::Entry(_)));
    assert!(matches!(p.parse_line().unwrap(), Kind::EOF));
    assert!(matches!(p.parse_line().unwrap(), Kind::EOF));
}

fn kinds_of(text: &str) -> Vec<Kind> {
    let mut p = LineParser::new(text);
    let mut kinds = Vec::new();
    loop {
        match p.parse_line().unwrap() {
            Kind::EOF => break,
            k => kinds.push(k),
        }
    }
    kinds
}

#[test]
fn build_rejects_duplicate_keys() {
    let kinds = kinds_of(
        "@implicitweights 0000..110000 ; FB40\n0061 ; [1.2.3]\n0061 ; [4.5.6]\n",
    );
    assert_eq!(build_table(kinds).unwrap_err(), BuildError::DuplicateKey);
}

#[test]
fn build_rejects_empty_key() {
    let kinds = vec![
        Kind::ImplicitWeight(ImplicitWeight { start: 0, end: 0x110000, weight: 0xFB40 }),
        Kind::Entry(Entry { codepoints: vec![], collate_elements: vec![] }),
    ];
    assert_eq!(build_table(kinds).unwrap_err(), BuildError::EmptyKey);
}

#[test]
fn build_rejects_empty_expansion() {
    let kinds = vec![
        Kind::ImplicitWeight(ImplicitWeight { start: 0, end: 0x110000, weight: 0xFB40 }),
        Kind::Entry(Entry { codepoints: vec![0x61], collate_elements: vec![] }),
    ];
    assert_eq!(build_table(kinds).unwrap_err(), BuildError::EmptyExpansion);
}

#[test]
fn build_rejects_empty_range() {
    let kinds = kinds_of(
        "@implicitweights 0000..110000 ; FB40\n@implicitweights 5000..5000 ; 100\n",
    );
    assert_eq!(build_table(kinds).unwrap_err(), BuildError::BadRange);
}

#[test]
fn build_rejects_overlapping_ranges() {
    let kinds = kinds_of(
        "@implicitweights 0000..10000 ; FB40\n@implicitweights 8000..110000 ; FBC0\n",
    );
    assert_eq!(build_table(kinds).unwrap_err(), BuildError::OverlappingRanges);
}

#[test]
fn build_rejects_gap_in_coverage() {
    let kinds = kinds_of(
        "@implicitweights 0000..10000 ; FB40\n@implicitweights 20000..110000 ; FBC0\n",
    );
    assert_eq!(build_table(kinds).unwrap_err(), BuildError::UncoveredCodepoint);
    assert_eq!(build_table(Vec::new()).unwrap_err(), BuildError::UncoveredCodepoint);
}

#[test]
fn build_rejects_weight_overflow() {
    let kinds = kinds_of("@implicitweights 0000..110000 ; FFFF\n");
    assert_eq!(build_table(kinds).unwrap_err(), BuildError::WeightOverflow);
}

#[test]
fn build_sorts_entries_and_ranges() {
    let kinds = kinds_of(
        "@implicitweights 10000..110000 ; FBC0\n@implicitweights 0000..10000 ; FB40\n0062 ; [1C60.20.2]\n0061 0306 ; [1C48.20.2]\n0061 ; [1C47.20.2]\n",
    );
    let t = build_table(kinds).unwrap();
    assert_eq!(t.max_key_len, 2);
    assert_eq!(t.entries[0].codepoints, vec![0x61]);
    assert_eq!(t.entries[1].codepoints, vec![0x61, 0x306]);
    assert_eq!(t.entries[2].codepoints, vec![0x62]);
    assert_eq!(t.implicit_weights[0].start, 0);
    assert_eq!(t.implicit_weights[1].start, 0x10000);
}

#[test]
fn csv_splits_rows_and_columns() {
    let c = Csv::from("a,b\n c,d \n");
    assert_eq!(c.entries, vec![vec!["a", "b"], vec!["c", "d"]]);
    let c2 = Csv::from("one");
    assert_eq!(c2.entries, vec![vec!["one"]]);
}

#[test]
fn library_add_and_read() {
    let mut lib = Library::new();
    let bk = Book {
        title: "Dune".to_string(),
        description: "sand".to_string(),
        pages: vec!["p1".to_string(), "p2".to_string()],
    };
    assert!(lib.add(bk).is_ok());
    let again = Book {
        title: "Dune".to_string(),
        description: "other".to_string(),
        pages: vec![],
    };
    match lib.add(again).unwrap_err() {
        LibraryError::Exists(t) => assert_eq!(t, "Dune"),
        e => panic!("unexpected error {:?}", e),
    }
    assert!(lib.read("Dune").is_ok());
    match lib.read("Leviathan").unwrap_err() {
        LibraryError::Missing(t) => assert_eq!(t, "Leviathan"),
        e => panic!("unexpected error {:?}", e),
    }
}

#[test]
fn library_error_messages() {
    let e = LibraryError::Missing("Dune".to_string());
    assert_eq!(e.message(), "Dune does not exist in the library!");
}

#[test]
fn statistics_buckets_by_day() {
    let mut s = Statistics::new(100);
    s.add_view(100);
    s.add_view(100);
    s.add_view(102);
    assert_eq!(s.views.offset, 100);
    assert_eq!(s.views.data, vec![(0, 2), (2, 1)]);
}
