use bins::dispatch::{
    bin_name, registry_is_wf, check_invocation, decide_mode, decide_mode_with, plan_download, route_host,
    select_backend, BackendInfo, DownloadPlan, HostKind, Mode,
};
use bins::error::{Error, Usage, Warning};
use bins::feature::{check_features, cli_features, Feature, SafetyPolicy};
use bins::paste::{candidate_name, file_list_text, format_paste, select_files, Paste, PasteFile};
use bins::range::{parse_range, parse_ranges, resolve_ranges, BidirectionalRange};
use bins::size::{file_size_limit, parse_size_limit};
use bins::text::{blank, join_lines, push_decimal, same_text};
use bins::upload::{apply_name, check_limit, UploadFile};

fn registry() -> Vec<BackendInfo> {
    vec![
        BackendInfo {
            name: "gist".to_string(),
            raw_host: "gist.githubusercontent.com".to_string(),
            html_host: "gist.github.com".to_string(),
            features: vec![Feature::Public, Feature::Private, Feature::Authed, Feature::Anonymous],
        },
        BackendInfo {
            name: "sprunge".to_string(),
            raw_host: "sprunge.us".to_string(),
            html_host: "sprunge.us".to_string(),
            features: vec![Feature::Public, Feature::Anonymous],
        },
    ]
}

fn file(name: &str, content: &str) -> PasteFile {
    PasteFile::new(name.to_string(), content.to_string())
}

#[test]
fn size_limit_decimal_units() {
    assert_eq!(parse_size_limit("10mb"), Ok(10_000_000));
    assert_eq!(parse_size_limit("10KB"), Ok(10_000));
    assert_eq!(parse_size_limit("2gb"), Ok(2_000_000_000));
}

#[test]
fn size_limit_binary_units() {
    assert_eq!(parse_size_limit("1kib"), Ok(1024));
    assert_eq!(parse_size_limit("1MiB"), Ok(1_048_576));
    assert_eq!(parse_size_limit("3gib"), Ok(3 * 1_073_741_824));
}

#[test]
fn size_limit_plain_bytes() {
    assert_eq!(parse_size_limit("5"), Ok(5));
    assert_eq!(parse_size_limit("5b"), Ok(5));
    assert_eq!(parse_size_limit("5B"), Ok(5));
}

#[test]
fn size_limit_fraction_rounds() {
    assert_eq!(parse_size_limit("1.5gb"), Ok(1_500_000_000));
    assert_eq!(parse_size_limit("0.5b"), Ok(1));
    assert_eq!(parse_size_limit("0.4b"), Ok(0));
    assert_eq!(parse_size_limit("1.0005kb"), Ok(1001));
    assert_eq!(parse_size_limit(".5kb"), Ok(500));
}

#[test]
fn size_limit_rejects_malformed() {
    assert_eq!(parse_size_limit(""), Err(Error::InvalidSizeLimit));
    assert_eq!(parse_size_limit("10xx"), Err(Error::InvalidSizeLimit));
    assert_eq!(parse_size_limit("mb"), Err(Error::InvalidSizeLimit));
    assert_eq!(parse_size_limit("1b2"), Err(Error::InvalidSizeLimit));
    assert_eq!(parse_size_limit("1.2.3"), Err(Error::InvalidSizeLimit));
    assert_eq!(parse_size_limit("."), Err(Error::InvalidSizeLimit));
    assert_eq!(parse_size_limit("10kbb"), Err(Error::InvalidSizeLimit));
    assert_eq!(parse_size_limit("1 kb"), Err(Error::InvalidSizeLimit));
    assert_eq!(parse_size_limit("   "), Err(Error::InvalidSizeLimit));
}

#[test]
fn size_limit_too_large_for_u64() {
    assert_eq!(parse_size_limit("9999999999999999999gb"), Err(Error::InvalidSizeLimit));
    assert_eq!(parse_size_limit("9999999999999999999"), Ok(9_999_999_999_999_999_999));
}

#[test]
fn size_limit_ignores_surrounding_whitespace() {
    assert_eq!(parse_size_limit(" 1kb"), Ok(1000));
    assert_eq!(parse_size_limit("\t10mb\n"), Ok(10_000_000));
    assert_eq!(parse_size_limit("\u{a0}1kib\u{3000}"), Ok(1024));
    assert_eq!(file_size_limit(Some(" 1kb ")), Ok(Some(1000)));
}

#[test]
fn size_limit_large_and_long_numbers() {
    assert_eq!(parse_size_limit("12345678901234567890"), Ok(12345678901234567890));
    assert_eq!(parse_size_limit("10000000000000000000"), Ok(10_000_000_000_000_000_000));
    assert_eq!(parse_size_limit("18446744073709551615"), Ok(u64::MAX));
    assert_eq!(parse_size_limit("18446744073709551616"), Err(Error::InvalidSizeLimit));
    assert_eq!(parse_size_limit("18446744073709551615.5"), Err(Error::InvalidSizeLimit));
    assert_eq!(parse_size_limit("18446744073709551614.5"), Ok(u64::MAX));
    assert_eq!(parse_size_limit("100000000000000000000000000000000000000000b"), Err(Error::InvalidSizeLimit));
    assert_eq!(parse_size_limit("1.00000000000000000000"), Ok(1));
    assert_eq!(parse_size_limit("0.49999999999999999999999999999b"), Ok(0));
    assert_eq!(parse_size_limit("0.50000000000000000000000000001b"), Ok(1));
    assert_eq!(parse_size_limit("1.99999999999999999999999999999999999kb"), Ok(2000));
    assert_eq!(parse_size_limit("17179869184gib"), Err(Error::InvalidSizeLimit));
    assert_eq!(parse_size_limit("17179869183gib"), Ok(17179869183 * 1_073_741_824));
}

#[test]
fn size_limit_leading_zeros() {
    assert_eq!(parse_size_limit("00000000000000000001kb"), Ok(1000));
    assert_eq!(parse_size_limit("0.00000000000000000000000000000001gib"), Ok(0));
    assert_eq!(parse_size_limit("0.000000001gb"), Ok(1));
}

#[test]
fn configured_size_limit() {
    assert_eq!(file_size_limit(None), Ok(None));
    assert_eq!(file_size_limit(Some("1kb")), Ok(Some(1000)));
    assert_eq!(file_size_limit(Some("lots")), Err(Error::InvalidSizeLimit));
}

#[test]
fn range_single_terms() {
    assert_eq!(parse_range("3"), Ok(BidirectionalRange { start: 3, end: 3 }));
    assert_eq!(parse_range("-1"), Ok(BidirectionalRange { start: -1, end: -1 }));
    assert_eq!(parse_range("2-4"), Ok(BidirectionalRange { start: 2, end: 4 }));
    assert_eq!(parse_range("0--1"), Ok(BidirectionalRange { start: 0, end: -1 }));
    assert_eq!(parse_range("-3-4"), Ok(BidirectionalRange { start: -3, end: 4 }));
}

#[test]
fn range_parse_errors() {
    assert_eq!(parse_ranges("abc"), Err(Error::RangeSyntax));
    assert_eq!(parse_ranges(""), Err(Error::RangeSyntax));
    assert_eq!(parse_ranges("1,"), Err(Error::RangeSyntax));
    assert_eq!(parse_ranges("1-2-3"), Err(Error::RangeSyntax));
    assert_eq!(parse_ranges("1-"), Err(Error::RangeSyntax));
    assert_eq!(parse_ranges("-"), Err(Error::RangeSyntax));
    assert_eq!(parse_ranges("1,x,2"), Err(Error::RangeSyntax));
    assert_eq!(parse_ranges("1234567890123456789"), Err(Error::RangeSyntax));
}

#[test]
fn range_selector_resolves_mixed_terms() {
    let r = parse_ranges("0,2-4,-1").unwrap();
    assert_eq!(
        r,
        vec![
            BidirectionalRange { start: 0, end: 0 },
            BidirectionalRange { start: 2, end: 4 },
            BidirectionalRange { start: -1, end: -1 },
        ]
    );
    assert_eq!(resolve_ranges(&r, 6), Ok(vec![0, 2, 3, 4, 5]));
}

#[test]
fn range_selector_counts_from_end() {
    let r = parse_ranges("-2").unwrap();
    assert_eq!(resolve_ranges(&r, 5), Ok(vec![3]));
}

#[test]
fn range_out_of_bounds_at_resolution() {
    let r = parse_ranges("10").unwrap();
    assert_eq!(resolve_ranges(&r, 3), Err(Error::RangeOutOfBounds { index: 10, count: 3 }));
    let r = parse_ranges("3,-1").unwrap();
    assert_eq!(resolve_ranges(&r, 2), Err(Error::RangeOutOfBounds { index: 3, count: 2 }));
    let r = parse_ranges("-4").unwrap();
    assert_eq!(resolve_ranges(&r, 3), Err(Error::RangeOutOfBounds { index: -4, count: 3 }));
}

#[test]
fn range_reversed_span_is_an_error() {
    let r = parse_ranges("3-1").unwrap();
    assert_eq!(resolve_ranges(&r, 5), Err(Error::RangeReversed { start: 3, end: 1 }));
    let r = parse_ranges("-1-0").unwrap();
    assert_eq!(resolve_ranges(&r, 4), Err(Error::RangeReversed { start: -1, end: 0 }));
}

#[test]
fn range_overlaps_are_merged() {
    let r = parse_ranges("1-3,2,0--2").unwrap();
    assert_eq!(resolve_ranges(&r, 5), Ok(vec![0, 1, 2, 3]));
}

#[test]
fn download_selects_files_in_ascending_order() {
    let files = vec![file("a", "1"), file("b", "2"), file("c", "3")];
    for sel in ["1,-1", "-1,1"] {
        let r = parse_ranges(sel).unwrap();
        let picked = select_files(&files, &r).unwrap();
        assert_eq!(picked.len(), 2);
        assert_eq!(picked[0].name, "b");
        assert_eq!(picked[1].name, "c");
        assert_eq!(picked[1].content, "3");
    }
}

#[test]
fn select_files_reports_bad_range() {
    let files = vec![file("a", "1")];
    let r = parse_ranges("1").unwrap();
    assert!(matches!(
        select_files(&files, &r),
        Err(Error::RangeOutOfBounds { index: 1, count: 1 })
    ));
    let files = vec![file("a", "1"), file("b", "2"), file("c", "3")];
    let r = parse_ranges("0,2-1,9").unwrap();
    assert!(matches!(
        select_files(&files, &r),
        Err(Error::RangeReversed { start: 2, end: 1 })
    ));
}

#[test]
fn requested_features_are_complementary() {
    assert_eq!(
        cli_features(Some(true), Some(false), true),
        vec![
            (Feature::Private, Some(true)),
            (Feature::Public, Some(false)),
            (Feature::Authed, Some(false)),
            (Feature::Anonymous, Some(true)),
            (Feature::SingleNaming, Some(true)),
        ]
    );
    assert_eq!(
        cli_features(None, None, false),
        vec![
            (Feature::Private, None),
            (Feature::Public, None),
            (Feature::Authed, None),
            (Feature::Anonymous, None),
            (Feature::SingleNaming, None),
        ]
    );
}

#[test]
fn unsupported_feature_cancels_without_force() {
    let policy = SafetyPolicy { warn_on_unsupported: None, cancel_on_unsupported: Some(true) };
    let reqs = cli_features(Some(true), None, false);
    let cancelled = Err(Error::UnsupportedFeature { backend: "sprunge".to_string(), feature: Feature::Private });
    assert_eq!(check_features("sprunge", &vec![Feature::Public], &reqs, policy, None), (vec![], cancelled));
    let cancelled = Err(Error::UnsupportedFeature { backend: "sprunge".to_string(), feature: Feature::Private });
    assert_eq!(check_features("sprunge", &vec![Feature::Public], &reqs, policy, Some(false)), (vec![], cancelled));
}

#[test]
fn unsupported_feature_warns_then_cancels() {
    let policy = SafetyPolicy { warn_on_unsupported: Some(true), cancel_on_unsupported: Some(true) };
    let reqs = cli_features(Some(true), None, true);
    assert_eq!(
        check_features("sprunge", &vec![Feature::Public], &reqs, policy, None),
        (
            vec![Warning::Unsupported(Feature::Private)],
            Err(Error::UnsupportedFeature { backend: "sprunge".to_string(), feature: Feature::Private })
        )
    );
}

#[test]
fn unsupported_feature_forced_warns() {
    let policy = SafetyPolicy { warn_on_unsupported: None, cancel_on_unsupported: Some(true) };
    let reqs = cli_features(Some(true), None, false);
    assert_eq!(
        check_features("sprunge", &vec![Feature::Public], &reqs, policy, Some(true)),
        (vec![Warning::ForcedUnsupported(Feature::Private)], Ok(()))
    );
}

#[test]
fn unsupported_feature_warn_policy() {
    let policy = SafetyPolicy { warn_on_unsupported: Some(true), cancel_on_unsupported: None };
    let reqs = cli_features(Some(true), Some(true), true);
    assert_eq!(
        check_features("gist", &vec![Feature::Public, Feature::Authed], &reqs, policy, None),
        (
            vec![Warning::Unsupported(Feature::Private), Warning::Unsupported(Feature::SingleNaming)],
            Ok(())
        )
    );
}

#[test]
fn unsupported_feature_ignored_without_policy() {
    let policy = SafetyPolicy { warn_on_unsupported: None, cancel_on_unsupported: None };
    let reqs = cli_features(Some(true), None, false);
    assert_eq!(check_features("sprunge", &vec![Feature::Public], &reqs, policy, None), (vec![], Ok(())));
}

#[test]
fn upload_message_end_to_end_checks() {
    let policy = SafetyPolicy { warn_on_unsupported: Some(true), cancel_on_unsupported: Some(true) };
    let reqs = cli_features(None, None, false);
    let features = vec![Feature::Public, Feature::Anonymous];
    assert_eq!(check_features("sprunge", &features, &reqs, policy, None), (vec![], Ok(())));
    assert_eq!(file_size_limit(None), Ok(None));
    assert_eq!(check_limit(&vec![("message".to_string(), 5)], None, None), Ok(vec![]));
    let files = vec![UploadFile::new("message".to_string(), "hello".to_string())];
    let files = apply_name(files, None).unwrap();
    assert_eq!(files.len(), 1);
    assert_eq!(files[0].content, "hello");
}

#[test]
fn size_check_against_limit() {
    let files = vec![("a".to_string(), 10), ("b".to_string(), 30), ("c".to_string(), 40)];
    assert_eq!(
        check_limit(&files, Some(20), None),
        Err(Error::SizeLimitExceeded { name: "b".to_string(), size: 30, limit: 20 })
    );
    assert_eq!(
        check_limit(&files, Some(20), Some(true)),
        Ok(vec![
            Warning::OverLimit { name: "b".to_string(), size: 30, limit: 20 },
            Warning::OverLimit { name: "c".to_string(), size: 40, limit: 20 },
        ])
    );
    assert_eq!(check_limit(&files, Some(40), None), Ok(vec![]));
}

#[test]
fn name_override() {
    let one = vec![UploadFile::new("stdin".to_string(), "x".to_string())];
    let r = apply_name(one, Some("notes.md".to_string())).unwrap();
    assert_eq!(r[0].name, "notes.md");
    assert_eq!(r[0].content, "x");
    let two = vec![
        UploadFile::new("a".to_string(), "x".to_string()),
        UploadFile::new("b".to_string(), "y".to_string()),
    ];
    assert!(matches!(
        apply_name(two, Some("n".to_string())),
        Err(Error::Usage(Usage::NameWithManyFiles))
    ));
}

#[test]
fn materializer_names_with_extension() {
    assert_eq!(candidate_name("a.txt", 0), "a.txt");
    assert_eq!(candidate_name("a.txt", 1), "a_1.txt");
    assert_eq!(candidate_name("a.txt", 2), "a_2.txt");
    assert_eq!(candidate_name("a.b.c", 12), "a.b_12.c");
    assert_eq!(candidate_name(".bashrc", 1), "_1.bashrc");
}

#[test]
fn materializer_names_without_extension() {
    assert_eq!(candidate_name("name", 0), "name");
    assert_eq!(candidate_name("name", 1), "name_1");
    assert_eq!(candidate_name("name", 105), "name_105");
}

#[test]
fn dispatch_by_raw_host() {
    let bins = registry();
    assert_eq!(route_host(&bins, "gist.githubusercontent.com"), Ok((0, HostKind::Raw)));
    assert_eq!(route_host(&bins, "gist.github.com"), Ok((0, HostKind::Html)));
    assert_eq!(route_host(&bins, "sprunge.us"), Ok((1, HostKind::Raw)));
}

#[test]
fn dispatch_unknown_host() {
    let bins = registry();
    assert_eq!(route_host(&bins, "example.com"), Err(Error::UnknownHost("example.com".to_string())));
}

#[test]
fn download_plan() {
    let bins = registry();
    assert_eq!(
        plan_download(&bins, Some("sprunge.us"), false, true),
        Ok(DownloadPlan { backend: 1, kind: HostKind::Raw })
    );
    assert_eq!(
        plan_download(&bins, Some("sprunge.us"), true, true),
        Err(Error::Usage(Usage::RangeWithNames))
    );
    assert_eq!(plan_download(&bins, None, false, false), Err(Error::MissingHost));
    assert_eq!(
        plan_download(&bins, Some("paste.example"), false, false),
        Err(Error::UnknownHost("paste.example".to_string()))
    );
}

#[test]
fn backend_selection() {
    let bins = registry();
    assert_eq!(select_backend(&bins, Some("sprunge"), Some("gist")), Ok(1));
    assert_eq!(select_backend(&bins, None, Some("gist")), Ok(0));
    assert_eq!(select_backend(&bins, None, None), Err(Error::Usage(Usage::NoBackend)));
    assert_eq!(select_backend(&bins, Some("  "), Some("gist")), Err(Error::Usage(Usage::NoBackend)));
    assert_eq!(bin_name(Some("\u{a0}"), None), Err(Error::Usage(Usage::NoBackend)));
    assert_eq!(bin_name(Some("\u{2003}\u{205f}"), Some("gist")), Err(Error::Usage(Usage::NoBackend)));
    assert_eq!(select_backend(&bins, Some("nope"), None), Err(Error::UnknownBackend("nope".to_string())));
    assert_eq!(bin_name(None, Some("gist")), Ok("gist".to_string()));
}

#[test]
fn invocation_checks() {
    assert_eq!(check_invocation(true, true, false), Err(Error::Usage(Usage::ListWithBackend)));
    assert_eq!(check_invocation(false, false, false), Err(Error::Usage(Usage::NoBackend)));
    assert_eq!(check_invocation(true, false, false), Ok(()));
    assert_eq!(check_invocation(false, false, true), Ok(()));
}

#[test]
fn mode_download_for_url() {
    let inputs = vec!["https://gist.github.com/abc".to_string(), "a.txt".to_string()];
    match decide_mode(false, Some(&inputs), false) {
        Ok(Mode::Download { url, host, names }) => {
            assert_eq!(url, "https://gist.github.com/abc");
            assert_eq!(host, Some("gist.github.com".to_string()));
            assert_eq!(names, Some(vec!["a.txt".to_string()]));
        }
        other => panic!("unexpected {:?}", other),
    }
}

#[test]
fn mode_url_is_normalized() {
    let inputs = vec!["HTTPS://Sprunge.US".to_string()];
    match decide_mode(false, Some(&inputs), true) {
        Ok(Mode::Download { url, host, names }) => {
            assert_eq!(url, "https://sprunge.us/");
            assert_eq!(host, Some("sprunge.us".to_string()));
            assert_eq!(names, None);
        }
        other => panic!("unexpected {:?}", other),
    }
}

#[test]
fn mode_upload_for_files() {
    let inputs = vec!["notes.txt".to_string()];
    assert!(matches!(decide_mode(false, Some(&inputs), false), Ok(Mode::Upload)));
    assert!(matches!(decide_mode(false, None, false), Ok(Mode::Upload)));
    assert!(matches!(
        decide_mode(false, Some(&inputs), true),
        Err(Error::Usage(Usage::RangeWithUpload))
    ));
    assert!(matches!(decide_mode(true, Some(&inputs), true), Ok(Mode::ListBins)));
}

#[test]
fn mode_from_parsed_url() {
    let inputs = vec!["x".to_string()];
    let parsed = Some(("mailto:x".to_string(), None));
    match decide_mode_with(false, Some(&inputs), parsed, false) {
        Ok(Mode::Download { url, host, names }) => {
            assert_eq!(url, "mailto:x");
            assert_eq!(host, None);
            assert_eq!(names, None);
        }
        other => panic!("unexpected {:?}", other),
    }
}

#[test]
fn paste_text_output() {
    let single = Paste::Single(file("a.txt", "hello"));
    assert_eq!(format_paste(&single), "hello");
    let multi = Paste::Multiple(vec![file("a.txt", "x"), file("b.txt", "y")]);
    assert_eq!(format_paste(&multi), "==> a.txt <==\n\nx\n==> b.txt <==\n\ny");
    assert_eq!(format_paste(&Paste::Multiple(vec![])), "");
}

#[test]
fn text_helpers() {
    assert_eq!(join_lines(&vec!["a".to_string(), "b".to_string()]), "a\nb");
    assert_eq!(join_lines(&vec![]), "");
    assert!(blank(" \t"));
    assert!(!blank(" x "));
    assert!(blank("\u{85}\u{1680}\u{2028}\u{202f}"));
    assert!(!blank("\u{200b}"));
    assert!(same_text("ab", "ab"));
    assert!(!same_text("ab", "abc"));
    let mut s = String::from("n=");
    push_decimal(&mut s, 9070);
    assert_eq!(s, "n=9070");
}

#[test]
fn listing_file_names() {
    let names = vec![Some("a.txt".to_string()), None, Some("c".to_string())];
    assert_eq!(file_list_text(&names), "a.txt\n<unknown>\nc");
    assert_eq!(file_list_text(&vec![]), "");
}

#[test]
fn registry_well_formedness() {
    assert!(registry_is_wf(&registry()));
    let mut bins = registry();
    bins.push(BackendInfo {
        name: "mirror".to_string(),
        raw_host: "raw.mirror.example".to_string(),
        html_host: "sprunge.us".to_string(),
        features: vec![],
    });
    assert!(!registry_is_wf(&bins));
    let mut bins = registry();
    bins.push(BackendInfo {
        name: "gist".to_string(),
        raw_host: "a.example".to_string(),
        html_host: "b.example".to_string(),
        features: vec![],
    });
    assert!(!registry_is_wf(&bins));
    assert!(registry_is_wf(&vec![]));
}
