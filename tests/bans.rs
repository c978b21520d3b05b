use crate_bans::cfg::{highlight, Config, GraphHighlight, LintLevel, TreeSkip};
use crate_bans::diag::{Diag, Diagnostic, Label, Pack, Severity};
use crate_bans::ident::{CrateId, Kid, Span, Spanned};

fn kid(name: &str, version: &str) -> CrateId {
    CrateId {
        name: name.to_owned(),
        version: version.to_owned(),
    }
}

fn spanned(name: &str, version: &str, start: u32, end: u32) -> Spanned<CrateId> {
    Spanned {
        value: kid(name, version),
        span: Span { start, end },
    }
}

fn values(v: &[Spanned<CrateId>]) -> Vec<CrateId> {
    v.iter().map(|s| s.value.clone()).collect()
}

#[test]
fn works() {
    let cfg = Config {
        multiple_versions: LintLevel::Deny,
        highlight: GraphHighlight::SimplestPath,
        deny: vec![
            spanned("specific-versiond", "=0.1.9", 120, 170),
            spanned("all-versionsd", "*", 80, 110),
        ],
        allow: vec![
            spanned("specific-versiona", "<0.1.1", 220, 270),
            spanned("all-versionsa", "*", 190, 215),
        ],
        skip: vec![spanned("rand", "=0.6.5", 300, 330)],
        skip_tree: vec![Spanned {
            value: TreeSkip {
                id: CrateId::any("blah"),
                depth: Some(20),
            },
            span: Span { start: 350, end: 380 },
        }],
    };

    let validated = match cfg.validate(7) {
        Ok(v) => v,
        Err(_) => panic!("expected a valid configuration"),
    };

    assert_eq!(validated.file_id, 7);
    assert_eq!(validated.multiple_versions, LintLevel::Deny);
    assert_eq!(validated.highlight, GraphHighlight::SimplestPath);
    assert_eq!(
        values(&validated.allowed),
        vec![kid("all-versionsa", "*"), kid("specific-versiona", "<0.1.1")]
    );
    assert_eq!(
        values(&validated.denied),
        vec![kid("all-versionsd", "*"), kid("specific-versiond", "=0.1.9")]
    );
    assert_eq!(values(&validated.skipped), vec![kid("rand", "=0.6.5")]);
    assert_eq!(
        validated.tree_skipped,
        vec![Spanned {
            value: TreeSkip {
                id: CrateId {
                    name: "blah".to_owned(),
                    version: "*".to_owned(),
                },
                depth: Some(20),
            },
            span: Span { start: 350, end: 380 },
        }]
    );
}

fn config(
    deny: Vec<Spanned<CrateId>>,
    allow: Vec<Spanned<CrateId>>,
    skip: Vec<Spanned<CrateId>>,
) -> Config {
    let mut cfg = Config::default();
    cfg.deny = deny;
    cfg.allow = allow;
    cfg.skip = skip;
    cfg
}

#[test]
fn deny_and_allow_of_one_crate_conflict() {
    let cfg = config(
        vec![spanned("foo", "*", 10, 20)],
        vec![spanned("foo", "*", 40, 50)],
        vec![],
    );
    let diags = match cfg.validate(1) {
        Err(d) => d,
        Ok(_) => panic!("expected a conflict"),
    };
    assert_eq!(diags.len(), 1);
    let d = &diags[0];
    assert_eq!(d.severity, Severity::Error);
    assert_eq!(d.message, "a crate was specified in both `deny` and `allow`");
    assert_eq!(
        d.primary,
        Label {
            file_id: 1,
            span: Span { start: 40, end: 50 },
            message: "marked as `allow`".to_owned(),
        }
    );
    assert_eq!(
        d.secondary,
        vec![Label {
            file_id: 1,
            span: Span { start: 10, end: 20 },
            message: "marked as `deny`".to_owned(),
        }]
    );
}

#[test]
fn later_declaration_is_the_primary_label() {
    let cfg = config(
        vec![spanned("foo", "=1.0.0", 90, 99)],
        vec![spanned("foo", "=1.0.0", 5, 15)],
        vec![],
    );
    let diags = cfg.validate(3).err().unwrap();
    assert_eq!(diags.len(), 1);
    assert_eq!(diags[0].primary.span, Span { start: 90, end: 99 });
    assert_eq!(diags[0].primary.message, "marked as `deny`");
    assert_eq!(diags[0].secondary[0].span, Span { start: 5, end: 15 });
    assert_eq!(diags[0].message, "a crate was specified in both `allow` and `deny`");
}

#[test]
fn every_conflict_is_collected_in_pass_order() {
    let cfg = config(
        vec![spanned("a", "*", 0, 1), spanned("b", "*", 2, 3)],
        vec![spanned("a", "*", 10, 11), spanned("c", "*", 12, 13)],
        vec![spanned("b", "*", 20, 21), spanned("c", "*", 22, 23)],
    );
    let diags = cfg.validate(0).err().unwrap();
    assert_eq!(diags.len(), 3);
    assert_eq!(diags[0].message, "a crate was specified in both `deny` and `allow`");
    assert_eq!(diags[1].message, "a crate was specified in both `deny` and `skip`");
    assert_eq!(diags[2].message, "a crate was specified in both `allow` and `skip`");
    assert_eq!(diags[2].primary.span, Span { start: 22, end: 23 });
}

#[test]
fn different_versions_do_not_conflict() {
    let cfg = config(
        vec![spanned("foo", "=1.0.0", 0, 5)],
        vec![spanned("foo", "=2.0.0", 6, 10)],
        vec![spanned("foo", "*", 11, 15)],
    );
    assert!(cfg.validate(0).is_ok());
}

#[test]
fn validated_lists_are_sorted_and_keep_every_entry() {
    let cfg = config(
        vec![
            spanned("zeta", "*", 0, 1),
            spanned("alpha", "=2.0.0", 2, 3),
            spanned("alpha", "=1.0.0", 4, 5),
            spanned("alpha", "=1.0.0", 6, 7),
        ],
        vec![],
        vec![spanned("mid", "*", 8, 9), spanned("beta", "*", 10, 11)],
    );
    let v = cfg.validate(0).ok().unwrap();
    assert_eq!(
        values(&v.denied),
        vec![
            kid("alpha", "=1.0.0"),
            kid("alpha", "=1.0.0"),
            kid("alpha", "=2.0.0"),
            kid("zeta", "*"),
        ]
    );
    let mut spans: Vec<u32> = v.denied.iter().map(|s| s.span.start).collect();
    spans.sort();
    assert_eq!(spans, vec![0, 2, 4, 6]);
    assert_eq!(values(&v.skipped), vec![kid("beta", "*"), kid("mid", "*")]);
    assert!(v.allowed.is_empty());
}

#[test]
fn empty_config_is_valid() {
    let v = Config::default().validate(2).ok().unwrap();
    assert_eq!(v.multiple_versions, LintLevel::Warn);
    assert_eq!(v.highlight, GraphHighlight::All);
    assert!(v.denied.is_empty() && v.allowed.is_empty() && v.skipped.is_empty());
}

#[test]
fn highlight_modes() {
    assert_eq!(highlight(), GraphHighlight::All);
    assert!(GraphHighlight::All.simplest());
    assert!(GraphHighlight::All.lowest_version());
    assert!(GraphHighlight::SimplestPath.simplest());
    assert!(!GraphHighlight::SimplestPath.lowest_version());
    assert!(!GraphHighlight::LowestVersion.simplest());
    assert!(GraphHighlight::LowestVersion.lowest_version());
}

fn error(msg: &str) -> Diagnostic {
    Diagnostic::new_error(
        msg.to_owned(),
        Label {
            file_id: 0,
            span: Span { start: 0, end: 1 },
            message: String::new(),
        },
    )
}

#[test]
fn pack_attributes_only_the_first_unattributed_diag() {
    let k = Kid {
        repr: "foo 1.0.0".to_owned(),
    };
    let mut pack = Pack::with_kid(k.clone());
    assert!(pack.is_empty());
    pack.push(Diag::new(error("one")));
    pack.push(Diag::new(error("two")));
    assert!(!pack.is_empty());
    let diags = pack.into_diags();
    assert_eq!(diags.len(), 2);
    assert_eq!(diags[0].kids(), vec![k]);
    assert!(diags[1].kids().is_empty());
    assert_eq!(diags[1].diag.message, "two");
}

#[test]
fn pack_keeps_explicit_attribution_and_default() {
    let k = Kid {
        repr: "foo 1.0.0".to_owned(),
    };
    let other = Kid {
        repr: "bar 2.0.0".to_owned(),
    };
    let mut pack = Pack::with_kid(k.clone());
    pack.push(Diag::with_kid(error("explicit"), other.clone()));
    pack.push(Diag::new(error("implicit")));
    let diags = pack.into_diags();
    assert_eq!(diags[0].kids(), vec![other]);
    assert_eq!(diags[1].kids(), vec![k]);
}

#[test]
fn pack_without_default_and_from_diag() {
    let mut pack = Pack::new();
    pack.push(Diag::new(error("x")));
    assert!(pack.into_diags()[0].kids().is_empty());
    let single = Pack::from_diag(Diag::new(error("y")));
    let diags = single.into_diags();
    assert_eq!(diags.len(), 1);
    assert_eq!(diags[0].diag.message, "y");
    assert_eq!(diags[0].diag.severity, Severity::Error);
}
