use git_sprout::attributes::{converts, parse_check_attr, Attributes, LineEndings, Value};

fn values(pairs: &[(&str, Value)]) -> Attributes {
    let mut attributes = Attributes::new();
    for (name, value) in pairs {
        attributes.insert((*name).to_string(), value.duplicate());
    }
    attributes
}

const PLAIN: LineEndings = LineEndings {
    autocrlf: false,
    crlf: false,
};

#[test]
fn a_path_with_no_attributes_is_written_verbatim() {
    assert!(!converts(&values(&[]), PLAIN));
}

#[test]
fn an_eol_attribute_rewrites_the_bytes() {
    assert!(converts(
        &values(&[("text", Value::IsSet), ("eol", Value::Named("crlf".into()))]),
        PLAIN
    ));
}

#[test]
fn text_alone_rewrites_the_bytes() {
    assert!(converts(
        &values(&[("text", Value::Named("auto".into()))]),
        PLAIN
    ));
}

#[test]
fn a_binary_path_is_never_rewritten() {
    let binary = values(&[("text", Value::Unset)]);
    assert!(!converts(&binary, PLAIN));
    assert!(!converts(
        &binary,
        LineEndings {
            autocrlf: true,
            crlf: true
        }
    ));
}

#[test]
fn autocrlf_rewrites_paths_with_no_attributes_of_their_own() {
    assert!(converts(
        &values(&[]),
        LineEndings {
            autocrlf: true,
            crlf: false
        }
    ));
}

#[test]
fn a_filter_rewrites_the_bytes() {
    assert!(converts(
        &values(&[("filter", Value::Named("lfs".into()))]),
        PLAIN
    ));
    assert!(converts(&values(&[("ident", Value::IsSet)]), PLAIN));
    assert!(converts(
        &values(&[("working-tree-encoding", Value::Named("UTF-16".into()))]),
        PLAIN
    ));
}

#[test]
fn reads_the_check_attr_triples() {
    let output = b"a.txt\0text\0set\0a.txt\0eol\0crlf\0b.bin\0text\0unspecified\0".as_slice();
    let parsed = parse_check_attr(output);
    assert_eq!(
        parsed.get(b"a.txt".as_slice()).unwrap().get("text"),
        Some(&Value::IsSet)
    );
    assert_eq!(
        parsed.get(b"a.txt".as_slice()).unwrap().get("eol"),
        Some(&Value::Named("crlf".into()))
    );
    assert_eq!(
        parsed.get(b"b.bin".as_slice()).unwrap().get("text"),
        Some(&Value::Unspecified)
    );
}

#[test]
fn reads_line_ending_configuration() {
    assert!(LineEndings::from_config(Some("true"), None).autocrlf);
    assert!(LineEndings::from_config(Some("input"), None).autocrlf);
    assert!(!LineEndings::from_config(Some("false"), None).autocrlf);
    assert!(LineEndings::from_config(None, Some("crlf")).crlf);
    assert!(!LineEndings::from_config(None, Some("lf")).crlf);
}

#[test]
fn a_later_report_replaces_an_earlier_one() {
    let parsed = parse_check_attr(b"a\0text\0set\0a\0text\0unset\0".as_slice());
    assert_eq!(parsed.len(), 1);
    assert_eq!(
        parsed.get(b"a".as_slice()).unwrap().get("text"),
        Some(&Value::Unset)
    );
}

#[test]
fn reading_stops_at_an_empty_path_or_an_incomplete_triple() {
    let parsed = parse_check_attr(b"a\0text\0set\0\0eol\0lf\0b\0text\0set\0".as_slice());
    assert_eq!(parsed.len(), 1);
    assert!(parsed.get(b"b".as_slice()).is_none());
    let parsed = parse_check_attr(b"a\0text\0set\0b\0text".as_slice());
    assert_eq!(parsed.len(), 1);
    assert!(parse_check_attr(b"".as_slice()).len() == 0);
}

#[test]
fn undecodable_values_are_kept_lossily() {
    let parsed = parse_check_attr(b"a\0filter\0x\xffy\0".as_slice());
    assert_eq!(
        parsed.get(b"a".as_slice()).unwrap().get("filter"),
        Some(&Value::Named("x\u{fffd}y".into()))
    );
}

#[test]
fn a_binary_path_with_a_filter_is_still_rewritten() {
    let both = values(&[("text", Value::Unset), ("filter", Value::Named("lfs".into()))]);
    assert!(converts(&both, PLAIN));
    let unset_filter = values(&[("filter", Value::Unset)]);
    assert!(!converts(&unset_filter, PLAIN));
    let crlf = LineEndings {
        autocrlf: false,
        crlf: true,
    };
    assert!(converts(&values(&[]), crlf));
}

#[test]
fn value_parse_reads_the_three_keywords() {
    assert_eq!(Value::parse(b"unspecified"), Value::Unspecified);
    assert_eq!(Value::parse(b"unset"), Value::Unset);
    assert_eq!(Value::parse(b"set"), Value::IsSet);
    assert_eq!(Value::parse(b"Set"), Value::Named("Set".into()));
    assert!(Value::parse(b"auto").applies());
    assert!(!Value::Unset.applies());
}
