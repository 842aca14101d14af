use helios_build::ips::{parse_manifest, Action, DependType, ManifestError};

#[test]
fn depend_require_line() {
    let acts = parse_manifest("depend type=require fmri=pkg:/system/library@0.5.11").unwrap();
    assert_eq!(acts.len(), 1);
    match &acts[0] {
        Action::Depend(d) => {
            assert_eq!(d.fmris(), vec!["pkg:/system/library@0.5.11"]);
            assert_eq!(d.type_(), DependType::Require);
        }
        _ => panic!("expected a depend action"),
    }
}

#[test]
fn depend_multiple_fmris() {
    let acts =
        parse_manifest("depend type=require-any fmri=pkg:/a fmri=pkg:/b fmri=pkg:/c").unwrap();
    match &acts[0] {
        Action::Depend(d) => {
            assert_eq!(d.fmris(), vec!["pkg:/a", "pkg:/b", "pkg:/c"]);
            assert_eq!(d.type_(), DependType::RequireAny);
        }
        _ => panic!("expected a depend action"),
    }
}

#[test]
fn strict_schema_rejects_extra_property() {
    let r = parse_manifest("depend type=require fmri=pkg:/x extra=1");
    assert_eq!(r.unwrap_err(), ManifestError::ExtraProperties);
}

#[test]
fn facet_properties_are_dropped() {
    let acts = parse_manifest("depend type=require fmri=pkg:/x facet.doc.man=true").unwrap();
    assert_eq!(acts.len(), 1);
}

#[test]
fn unknown_depend_type_is_error() {
    let r = parse_manifest("depend type=banana fmri=pkg:/x");
    assert_eq!(r.unwrap_err(), ManifestError::UnknownDependType);
}

#[test]
fn missing_fmri_is_error() {
    let r = parse_manifest("depend type=require");
    assert_eq!(r.unwrap_err(), ManifestError::MissingProperty);
}

#[test]
fn doubled_type_is_error() {
    let r = parse_manifest("depend type=require type=optional fmri=pkg:/x");
    assert_eq!(r.unwrap_err(), ManifestError::MultipleValues);
}

#[test]
fn unknown_actions_collect_tokens_and_values() {
    let acts = parse_manifest("set name=pkg.summary value=\"a quoted value\"").unwrap();
    match acts.into_iter().next().unwrap() {
        Action::Unknown(a, free, mut vals) => {
            assert_eq!(a, "set");
            assert!(free.is_empty());
            assert_eq!(vals.single("name").unwrap(), "pkg.summary");
            assert_eq!(vals.single("value").unwrap(), "a quoted value");
            assert!(vals.check_for_extra().is_ok());
        }
        _ => panic!("expected an unknown action"),
    }
}

#[test]
fn single_quoted_values_and_free_tokens() {
    let acts = parse_manifest("fancy tok1 tok2 key='v v' other=plain").unwrap();
    match acts.into_iter().next().unwrap() {
        Action::Unknown(a, free, mut vals) => {
            assert_eq!(a, "fancy");
            assert_eq!(free, vec!["tok1".to_string(), "tok2".to_string()]);
            assert_eq!(vals.single("key").unwrap(), "v v");
            assert_eq!(vals.single("other").unwrap(), "plain");
        }
        _ => panic!("expected an unknown action"),
    }
}

#[test]
fn bare_action_type_parses() {
    let acts = parse_manifest("reboot").unwrap();
    match &acts[0] {
        Action::Unknown(a, free, _) => {
            assert_eq!(a, "reboot");
            assert!(free.is_empty());
        }
        _ => panic!("expected an unknown action"),
    }
}

#[test]
fn empty_line_is_error() {
    assert_eq!(parse_manifest("set a=b\n\nset c=d").unwrap_err(), ManifestError::BadLine);
}

#[test]
fn backslash_in_quoted_value_is_error() {
    assert_eq!(parse_manifest("set a=\"x\\y\"").unwrap_err(), ManifestError::BadLine);
}

#[test]
fn errant_quote_is_error() {
    assert_eq!(parse_manifest("set a=b\"c\" d=e").unwrap_err(), ManifestError::BadLine);
}

#[test]
fn unterminated_quote_is_error() {
    assert_eq!(parse_manifest("set a=\"bc").unwrap_err(), ManifestError::BadLine);
}

#[test]
fn mismatched_quote_kind_is_error() {
    assert_eq!(parse_manifest("set a=\"bc'").unwrap_err(), ManifestError::BadLine);
}

#[test]
fn multi_line_manifest() {
    let text = "set name=pkg.fmri value=pkg:/web/curl@7.1\n\
                depend type=require fmri=pkg:/library/libssl\n\
                depend type=incorporate fmri=pkg:/consolidation/osnet";
    let acts = parse_manifest(text).unwrap();
    assert_eq!(acts.len(), 3);
    match &acts[2] {
        Action::Depend(d) => assert_eq!(d.type_(), DependType::Incorporate),
        _ => panic!("expected a depend action"),
    }
}

#[test]
fn depend_predicate_and_variant() {
    let acts = parse_manifest(
        "depend type=conditional fmri=pkg:/a predicate=pkg:/p1 predicate=pkg:/p2 \
         variant.opensolaris.zone=global",
    )
    .unwrap();
    match &acts[0] {
        Action::Depend(d) => {
            assert_eq!(d.type_(), DependType::Conditional);
            assert_eq!(d.fmris(), vec!["pkg:/a"]);
        }
        _ => panic!("expected a depend action"),
    }
}

#[test]
fn crlf_lines_are_accepted() {
    let acts = parse_manifest("set a=b\r\nset c=d").unwrap();
    assert_eq!(acts.len(), 2);
}

#[test]
fn depend_type_vocabulary() {
    assert_eq!(DependType::parse("incorporate").unwrap(), DependType::Incorporate);
    assert_eq!(DependType::parse("require").unwrap(), DependType::Require);
    assert_eq!(DependType::parse("require-any").unwrap(), DependType::RequireAny);
    assert_eq!(DependType::parse("group").unwrap(), DependType::Group);
    assert_eq!(DependType::parse("group-any").unwrap(), DependType::GroupAny);
    assert_eq!(DependType::parse("optional").unwrap(), DependType::Optional);
    assert_eq!(DependType::parse("conditional").unwrap(), DependType::Conditional);
    assert_eq!(DependType::parse("exclude").unwrap_err(), ManifestError::UnknownDependType);
}
