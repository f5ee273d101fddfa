use std::collections::HashSet;

use depgraph::Graph;

const BIGBANG: &'static str = "bigbang";
const STARDUST: &'static str = "stardust";
const STAR: &'static str = "star";
const PROTO_PLANET: &'static str = "proto-planet";
const PLANET: &'static str = "planet";

fn to_set(v: Vec<&'static str>) -> HashSet<&'static str> {
    let mut s = HashSet::new();
    for x in v {
        s.insert(x);
    }
    s
}

fn default_graph() -> Graph<&'static str> {
    let mut g = Graph::<&str>::default();
    g.depend(STARDUST, BIGBANG).unwrap();
    g.depend(STAR, STARDUST).unwrap();
    g.depend(PROTO_PLANET, STAR).unwrap();
    g.depend(PLANET, PROTO_PLANET).unwrap();

    g
}

#[test]
fn test_basic_dependency() {
    let mut g = default_graph();
    assert_eq!(to_set(g.dependents(&STAR)), HashSet::from([PROTO_PLANET, PLANET]));

    assert!(g.depends_on(&STAR, &STARDUST));
    assert!(g.depends_on(&STAR, &BIGBANG));
    assert!(g.depends_on(&STARDUST, &BIGBANG));

    assert!(g.depends_on(&PLANET, &BIGBANG));
    assert!(g.depends_on(&PLANET, &STARDUST));
    assert!(g.depends_on(&PLANET, &STAR));
    assert!(g.depends_on(&PLANET, &PROTO_PLANET));

    assert!(g.depends_on(&PROTO_PLANET, &BIGBANG));
    assert!(g.depends_on(&PROTO_PLANET, &STARDUST));
    assert!(g.depends_on(&PROTO_PLANET, &STAR));

    assert!(g.depends_on(&STAR, &BIGBANG));
    assert!(g.depends_on(&STAR, &STARDUST));

    assert!(g.depends_on(&STARDUST, &BIGBANG));

    assert!(!g.depends_on(&BIGBANG, &STARDUST));
    assert!(!g.depends_on(&BIGBANG, &PLANET));
    assert!(!g.depends_on(&STARDUST, &PLANET));
    assert!(!g.depends_on(&STAR, &PLANET));
    assert!(!g.depends_on(&PROTO_PLANET, &PLANET));
    assert!(!g.depends_on(&PLANET, &PLANET));

    assert!(!g.depends_on(&BIGBANG, &PROTO_PLANET));
    assert!(!g.depends_on(&STARDUST, &PROTO_PLANET));
    assert!(!g.depends_on(&STAR, &PROTO_PLANET));
    assert!(!g.depends_on(&PROTO_PLANET, &PROTO_PLANET));

    assert!(!g.depends_on(&BIGBANG, &STAR));
    assert!(!g.depends_on(&STARDUST, &STAR));
    assert!(!g.depends_on(&STAR, &STAR));

    assert!(!g.depends_on(&BIGBANG, &STARDUST));
    assert!(!g.depends_on(&STARDUST, &STARDUST));

    g.depend(STARDUST, STAR)
        .expect_err("stardust should not depend on star");

    g.depend(BIGBANG, "god").unwrap();
    g.depend("sun", STARDUST).unwrap();
    g.depend("earth", "sun").unwrap();
    g.depend("human", "earth").unwrap();

    assert!(g.depends_on(&"human", &"earth"));
    assert!(g.depends_on(&"human", &"sun"));
    assert!(g.depends_on(&"human", &STARDUST));
    assert!(g.depends_on(&"human", &"god"));
}

#[test]
fn test_depends_on_directly() {
    let mut g = Graph::new();

    g.depend("b", "a").unwrap();
    g.depend("c", "b").unwrap();
    g.depend("d", "c").unwrap();

    assert!(g.depends_on_directly(&"d", &"c"));
    assert!(g.depends_on_directly(&"c", &"b"));
    assert!(g.depends_on_directly(&"b", &"a"));

    assert!(!g.depends_on_directly(&"d", &"b"));
    assert!(!g.depends_on_directly(&"c", &"a"));
    assert!(!g.depends_on_directly(&"b", &"x"));
}

#[test]
fn test_deep_dig() {
    let mut g = default_graph();

    assert_eq!(
        to_set(g.dependents(&BIGBANG)), //
        HashSet::from([STAR, STARDUST, PROTO_PLANET, PLANET])
    );

    assert_eq!(
        to_set(g.dependencies(&BIGBANG)), //
        HashSet::default(),
    );

    assert_eq!(
        to_set(g.dependencies(&STARDUST)), //
        HashSet::from([BIGBANG]),
    );

    assert_eq!(
        to_set(g.dependencies(&STAR)), //
        HashSet::from([BIGBANG, STARDUST]),
    );

    assert_eq!(
        to_set(g.dependencies(&PLANET)), //
        HashSet::from([BIGBANG, STARDUST, STAR, PROTO_PLANET]),
    );

    g.depend(BIGBANG, "god").unwrap();
    g.depend("sun", STARDUST).unwrap();
    g.depend("earth", "sun").unwrap();
    g.depend("earth", "god").unwrap();
    g.depend("human", "earth").unwrap();

    {
        assert_eq!(
            to_set(g.dependents(&"god")),
            HashSet::from([
                BIGBANG,
                STARDUST,
                STAR,
                PROTO_PLANET,
                PLANET,
                "sun",
                "earth",
                "human"
            ]),
        );

        assert_eq!(
            to_set(g.dependents(&BIGBANG)),
            HashSet::from([
                STARDUST,
                STAR,
                PROTO_PLANET,
                PLANET,
                "sun",
                "earth",
                "human"
            ])
        );

        assert_eq!(
            to_set(g.dependents(&STARDUST)),
            HashSet::from([STAR, PROTO_PLANET, PLANET, "sun", "earth", "human"])
        );

        assert_eq!(to_set(g.dependents(&STAR)), HashSet::from([PROTO_PLANET, PLANET]));
    }

    {
        assert_eq!(to_set(g.dependencies(&"god")), HashSet::default());

        assert_eq!(
            to_set(g.dependencies(&"sun")),
            HashSet::from([STARDUST, BIGBANG, "god"])
        );

        assert_eq!(
            to_set(g.dependencies(&"earth")),
            HashSet::from([STARDUST, BIGBANG, "god", "sun"])
        );

        assert_eq!(
            to_set(g.dependencies(&"human")),
            HashSet::from(["god", BIGBANG, STARDUST, "sun", "earth"])
        );

        g.depend("human", PLANET).unwrap();
        assert_eq!(
            to_set(g.dependencies(&"human")),
            HashSet::from([
                "god",
                BIGBANG,
                STARDUST,
                "sun",
                "earth",
                STAR,
                PROTO_PLANET,
                PLANET
            ])
        );
    }
}

#[test]
fn test_undepend() {
    let mut g = Graph::<&str>::default();
    g.depend(STARDUST, BIGBANG).unwrap();
    g.depend(STAR, STARDUST).unwrap();

    g.undepend(&STAR, &BIGBANG)
        .expect_err("should not be able to undepend deep dependency");

    g.undepend(&STAR, &STARDUST)
        .expect("should be able to undepend direct dependency");

    assert!(!g.depends_on(&STAR, &STARDUST));
    assert!(!g.depends_on(&STAR, &BIGBANG));
}

#[test]
fn test_remove() {
    let mut g = default_graph();

    g.remove(&PROTO_PLANET)
        .expect_err("proto-planet is depended on by planet");

    g.remove(&PLANET).unwrap();

    assert_eq!(
        to_set(g.dependents(&BIGBANG)),
        HashSet::from([STARDUST, STAR, PROTO_PLANET])
    );

    assert!(!g.contains(&PLANET));
    assert_eq!(to_set(g.dependencies(&PLANET)), HashSet::default());
    assert_eq!(to_set(g.dependents(&PLANET)), HashSet::default());

    assert_eq!(to_set(g.dependents(&PROTO_PLANET)), HashSet::default());
    assert_eq!(to_set(g.dependents(&STAR)), HashSet::from([PROTO_PLANET]));
    assert_eq!(to_set(g.dependents(&STARDUST)), HashSet::from([STAR, PROTO_PLANET]));
    assert_eq!(
        to_set(g.dependents(&BIGBANG)),
        HashSet::from([STARDUST, STAR, PROTO_PLANET])
    );

    assert_eq!(
        to_set(g.dependencies(&PROTO_PLANET)),
        HashSet::from([STAR, STARDUST, BIGBANG])
    );
    assert_eq!(to_set(g.dependencies(&STAR)), HashSet::from([STARDUST, BIGBANG]));
    assert_eq!(to_set(g.dependencies(&STARDUST)), HashSet::from([BIGBANG]));
    assert_eq!(to_set(g.dependencies(&BIGBANG)), HashSet::default());

    g.remove(&PROTO_PLANET).unwrap();

    assert!(!g.contains(&PROTO_PLANET));
    assert_eq!(to_set(g.dependencies(&PROTO_PLANET)), HashSet::default());
    assert_eq!(to_set(g.dependents(&PROTO_PLANET)), HashSet::default());

    assert_eq!(to_set(g.dependents(&STAR)), HashSet::default());
    assert_eq!(to_set(g.dependents(&STARDUST)), HashSet::from([STAR]));
    assert_eq!(to_set(g.dependents(&BIGBANG)), HashSet::from([STARDUST, STAR]));

    assert_eq!(to_set(g.dependencies(&STAR)), HashSet::from([STARDUST, BIGBANG]));
    assert_eq!(to_set(g.dependencies(&STARDUST)), HashSet::from([BIGBANG]));
    assert_eq!(to_set(g.dependencies(&BIGBANG)), HashSet::default());
}
