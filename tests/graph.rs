use crate_bans::grapher::{GraphError, Grapher};
use crate_bans::ident::Kid;
use crate_bans::krates::{DepKind, Edge, Krate, Krates};
use crate_bans::spans::KrateSpans;

fn krate(name: &str, version: &str, source: Option<&str>) -> Krate {
    Krate {
        id: Kid {
            repr: format!("{} {}", name, version),
        },
        name: name.to_owned(),
        version: version.to_owned(),
        source: source.map(|s| s.to_owned()),
        manifest_dir: format!("/src/{}", name),
    }
}

fn kid(name: &str, version: &str) -> Kid {
    Kid {
        repr: format!("{} {}", name, version),
    }
}

fn edge(from: usize, to: usize, kind: DepKind) -> Edge {
    Edge { from, to, kind }
}

/// app -> lib -> dep, and app -> dep directly.
fn diamond(edges_reversed: bool) -> Krates {
    let mut edges = vec![
        edge(0, 1, DepKind::Normal),
        edge(1, 2, DepKind::Normal),
        edge(0, 2, DepKind::Normal),
    ];
    if edges_reversed {
        edges.reverse();
    }
    Krates {
        krates: vec![
            krate("app", "0.1.0", None),
            krate("lib", "1.0.0", Some("registry+https://example.org/index")),
            krate("dep", "2.0.0", Some("registry+https://example.org/index")),
        ],
        edges,
    }
}

#[test]
fn diamond_prints_shared_consumer_once_per_path() {
    let krates = diamond(false);
    let mut g = Grapher::new(&krates);
    let out = g.write_graph(&kid("dep", "2.0.0")).unwrap();
    assert_eq!(
        out,
        "dep v2.0.0\n├── app v0.1.0\n└── lib v1.0.0\n    └── app v0.1.0 (*)\n"
    );
}

#[test]
fn output_does_not_depend_on_edge_order() {
    let a = diamond(false);
    let b = diamond(true);
    let out_a = Grapher::new(&a).write_graph(&kid("dep", "2.0.0")).unwrap();
    let out_b = Grapher::new(&b).write_graph(&kid("dep", "2.0.0")).unwrap();
    let again = Grapher::new(&a).write_graph(&kid("dep", "2.0.0")).unwrap();
    assert_eq!(out_a, out_b);
    assert_eq!(out_a, again);
}

#[test]
fn cycle_terminates_with_revisit_marker() {
    let krates = Krates {
        krates: vec![krate("a", "1.0.0", None), krate("b", "1.0.0", None)],
        edges: vec![edge(0, 1, DepKind::Normal), edge(1, 0, DepKind::Normal)],
    };
    let out = Grapher::new(&krates).write_graph(&kid("a", "1.0.0")).unwrap();
    assert_eq!(out, "a v1.0.0\n└── b v1.0.0\n    └── a v1.0.0 (*)\n");
}

#[test]
fn edge_kinds_are_tagged() {
    let krates = Krates {
        krates: vec![
            krate("top", "1.0.0", None),
            krate("helper", "0.2.0", None),
            krate("leaf", "0.3.0", None),
        ],
        edges: vec![
            edge(1, 2, DepKind::Build),
            edge(0, 2, DepKind::Dev),
            edge(0, 1, DepKind::Normal),
        ],
    };
    let out = Grapher::new(&krates).write_graph(&kid("leaf", "0.3.0")).unwrap();
    assert_eq!(
        out,
        "leaf v0.3.0\n├── (build) helper v0.2.0\n│   └── top v1.0.0\n└── (dev) top v1.0.0 (*)\n"
    );
}

#[test]
fn root_without_consumers_is_one_line() {
    let krates = diamond(false);
    let out = Grapher::new(&krates).write_graph(&kid("app", "0.1.0")).unwrap();
    assert_eq!(out, "app v0.1.0\n");
}

#[test]
fn missing_node_is_an_error() {
    let krates = diamond(false);
    let r = Grapher::new(&krates).write_graph(&kid("nope", "0.0.0"));
    assert_eq!(r, Err(GraphError::NodeNotFound));
    let empty = Krates {
        krates: vec![],
        edges: vec![],
    };
    assert_eq!(
        Grapher::new(&empty).write_graph(&kid("app", "0.1.0")),
        Err(GraphError::NodeNotFound)
    );
}

#[test]
fn node_lookup_by_kid() {
    let krates = diamond(false);
    assert_eq!(krates.len(), 3);
    assert_eq!(krates.nid_for_kid(&kid("lib", "1.0.0")), Some(1));
    assert_eq!(krates.nid_for_kid(&kid("lib", "1.0.1")), None);
}

#[test]
fn spans_cover_each_line() {
    let krates = diamond(false);
    let (spans, text) = KrateSpans::new(&krates);
    assert_eq!(
        text,
        "app 0.1.0 /src/app\nlib 1.0.0 registry+https://example.org/index\ndep 2.0.0 registry+https://example.org/index\n"
    );
    assert_eq!(spans.len(), 3);
    for (i, line) in text.lines().enumerate() {
        let s = spans.index(i);
        assert_eq!(&text[s.start as usize..s.end as usize], line);
    }
    assert_eq!(spans.index(0).start, 0);
    assert_eq!(spans.index(0).end, 18);
    assert_eq!(spans.index(1).start, 19);
}

#[test]
fn spans_are_byte_offsets() {
    let krates = Krates {
        krates: vec![krate("ünï", "1.0.0", None), krate("b", "2.0.0", None)],
        edges: vec![],
    };
    let (spans, text) = KrateSpans::new(&krates);
    let first = "ünï 1.0.0 /src/ünï";
    assert_eq!(spans.index(0).end as usize, first.len());
    assert_eq!(spans.index(1).start as usize, first.len() + 1);
    let s = spans.index(1);
    assert_eq!(&text[s.start as usize..s.end as usize], "b 2.0.0 /src/b");
}

#[test]
fn spans_of_empty_graph() {
    let krates = Krates {
        krates: vec![],
        edges: vec![],
    };
    let (spans, text) = KrateSpans::new(&krates);
    assert_eq!(spans.len(), 0);
    assert!(text.is_empty());
}

#[test]
fn same_consumer_through_two_kinds_is_ordered_by_kind() {
    let mk = |edges: Vec<Edge>| Krates {
        krates: vec![krate("user", "1.0.0", None), krate("used", "0.1.0", None)],
        edges,
    };
    let a = mk(vec![edge(0, 1, DepKind::Build), edge(0, 1, DepKind::Normal)]);
    let b = mk(vec![edge(0, 1, DepKind::Normal), edge(0, 1, DepKind::Build)]);
    let expected = "used v0.1.0\n├── user v1.0.0\n└── (build) user v1.0.0 (*)\n";
    assert_eq!(Grapher::new(&a).write_graph(&kid("used", "0.1.0")).unwrap(), expected);
    assert_eq!(Grapher::new(&b).write_graph(&kid("used", "0.1.0")).unwrap(), expected);
}
