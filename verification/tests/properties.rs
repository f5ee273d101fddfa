use std::collections::HashSet;

use depgraph::Error;
use depgraph::Graph;

fn to_set(v: Vec<&'static str>) -> HashSet<&'static str> {
    let mut s = HashSet::new();
    for x in v {
        s.insert(x);
    }
    s
}

#[test]
fn test_self_loop_rejected() {
    let mut g = Graph::new();
    assert_eq!(g.depend("x", "x"), Err(Error::DependsOnSelf));
    assert!(!g.contains(&"x"));

    g.depend("x", "y").unwrap();
    assert_eq!(g.depend("x", "x"), Err(Error::DependsOnSelf));
    assert_eq!(g.depend("y", "y"), Err(Error::DependsOnSelf));
    assert_eq!(g.depend("unknown", "unknown"), Err(Error::DependsOnSelf));
}

#[test]
fn test_cycle_rejected_and_graph_unchanged() {
    let mut g = Graph::new();
    g.depend("a", "b").unwrap();
    g.depend("b", "c").unwrap();

    assert_eq!(g.depend("c", "a"), Err(Error::CircularDependency));
    assert_eq!(g.depend("b", "a"), Err(Error::CircularDependency));
    assert_eq!(g.depend("c", "b"), Err(Error::CircularDependency));

    assert_eq!(to_set(g.dependencies(&"a")), HashSet::from(["b", "c"]));
    assert_eq!(to_set(g.dependents(&"c")), HashSet::from(["a", "b"]));
    assert!(!g.depends_on(&"c", &"a"));
    assert!(!g.depends_on_directly(&"c", &"a"));
}

#[test]
fn test_idempotent_edges() {
    let mut g = Graph::new();
    g.depend("app", "lib").unwrap();
    let deps_once = to_set(g.dependencies(&"app"));
    let back_once = to_set(g.dependents(&"lib"));

    g.depend("app", "lib").unwrap();
    assert_eq!(to_set(g.dependencies(&"app")), deps_once);
    assert_eq!(to_set(g.dependents(&"lib")), back_once);
    assert!(g.depends_on_directly(&"app", &"lib"));
    assert!(g.contains(&"app"));
    assert!(g.contains(&"lib"));
}

#[test]
fn test_transitive_chain_closure() {
    let mut g = Graph::new();
    g.depend("a", "b").unwrap();
    g.depend("b", "c").unwrap();
    g.depend("c", "d").unwrap();

    assert_eq!(to_set(g.dependencies(&"a")), HashSet::from(["b", "c", "d"]));
    assert_eq!(to_set(g.dependents(&"d")), HashSet::from(["a", "b", "c"]));
}

#[test]
fn test_direct_edges_stay_symmetric() {
    let mut g = Graph::new();
    g.depend("a", "b").unwrap();
    g.depend("c", "b").unwrap();
    g.depend("b", "d").unwrap();

    assert!(g.depends_on_directly(&"a", &"b"));
    assert!(g.is_dependend(&"b"));
    assert!(to_set(g.dependents(&"b")).contains("a"));
    assert!(to_set(g.dependents(&"b")).contains("c"));

    g.undepend(&"a", &"b").unwrap();
    assert!(!g.depends_on_directly(&"a", &"b"));
    assert!(!to_set(g.dependents(&"b")).contains("a"));
    assert!(g.is_dependend(&"b"));

    g.undepend(&"c", &"b").unwrap();
    assert!(!g.is_dependend(&"b"));
    assert!(g.is_dependend(&"d"));

    g.remove(&"a").unwrap();
    assert!(!g.contains(&"a"));
    assert_eq!(to_set(g.dependents(&"a")), HashSet::default());
}

#[test]
fn test_deletion_guard() {
    let mut g = Graph::new();
    g.depend("a", "b").unwrap();

    assert_eq!(g.remove(&"b"), Err(Error::DependencyExists));
    assert!(g.contains(&"b"));

    assert_eq!(g.remove(&"zz"), Err(Error::NoSuchNode));

    g.remove(&"a").unwrap();
    assert!(!g.contains(&"a"));
    assert_eq!(to_set(g.dependencies(&"a")), HashSet::default());
    assert_eq!(to_set(g.dependents(&"a")), HashSet::default());

    g.remove(&"b").unwrap();
    assert!(!g.contains(&"b"));
}

#[test]
fn test_undepend_needs_direct_edge() {
    let mut g = Graph::new();
    g.depend("a", "b").unwrap();
    g.depend("b", "c").unwrap();

    assert!(g.depends_on(&"a", &"c"));
    assert_eq!(g.undepend(&"a", &"c"), Err(Error::NoSuchDirectDependency));
    assert_eq!(g.undepend(&"c", &"a"), Err(Error::NoSuchDirectDependency));
    assert_eq!(g.undepend(&"nope", &"b"), Err(Error::NoSuchDirectDependency));

    g.undepend(&"a", &"b").unwrap();
    assert!(!g.depends_on(&"a", &"c"));
    assert!(g.contains(&"a"));
}

#[test]
fn test_cosmology_scenario() {
    let mut g = Graph::new();
    g.depend("stardust", "bigbang").unwrap();
    g.depend("star", "stardust").unwrap();
    g.depend("proto-planet", "star").unwrap();
    g.depend("planet", "proto-planet").unwrap();

    assert_eq!(to_set(g.dependents(&"star")), HashSet::from(["proto-planet", "planet"]));
    assert_eq!(
        to_set(g.dependencies(&"planet")),
        HashSet::from(["bigbang", "stardust", "star", "proto-planet"])
    );
    assert_eq!(g.depend("stardust", "star"), Err(Error::CircularDependency));
    assert_eq!(g.remove(&"proto-planet"), Err(Error::DependencyExists));

    g.remove(&"planet").unwrap();
    g.remove(&"proto-planet").unwrap();
    assert_eq!(to_set(g.dependents(&"star")), HashSet::default());
}

#[test]
fn test_unknown_nodes_are_lenient() {
    let g = Graph::<&str>::new();
    assert!(!g.contains(&"ghost"));
    assert!(!g.depends_on(&"ghost", &"ghost2"));
    assert!(!g.depends_on_directly(&"ghost", &"ghost2"));
    assert!(!g.is_dependend(&"ghost"));
    assert_eq!(to_set(g.dependencies(&"ghost")), HashSet::default());
    assert_eq!(to_set(g.dependents(&"ghost")), HashSet::default());
}

#[test]
fn test_integer_identifiers() {
    let mut g = Graph::<u64>::new();
    g.depend(2, 1).unwrap();
    g.depend(3, 2).unwrap();
    assert!(g.depends_on(&3, &1));
    assert!(!g.depends_on(&1, &3));
    assert_eq!(g.depend(1, 3), Err(Error::CircularDependency));
    let mut back: Vec<u64> = g.dependents(&1);
    back.sort();
    assert_eq!(back, vec![2, 3]);
}

#[test]
fn test_string_identifiers() {
    let mut g = Graph::<String>::new();
    g.depend(String::from("app"), String::from("lib")).unwrap();
    assert!(g.contains(&String::from("app")));
    assert!(g.depends_on_directly(&String::from("app"), &String::from("lib")));
    assert_eq!(
        g.depend(String::from("lib"), String::from("app")),
        Err(Error::CircularDependency)
    );
    let deps: Vec<String> = g.dependencies(&String::from("app"));
    assert_eq!(deps, vec![String::from("lib")]);
}

#[test]
fn test_error_messages() {
    assert_eq!(Error::CircularDependency.message(), "circular dependency");
    assert_eq!(Error::DependencyExists.message(), "dependencies exist");
    assert_eq!(Error::DependsOnSelf.message(), "depends on self");
    assert_eq!(
        Error::NoSuchDirectDependency.message(),
        "no such direct dependency relationship"
    );
    assert_eq!(Error::NoSuchNode.message(), "no such node");
}
