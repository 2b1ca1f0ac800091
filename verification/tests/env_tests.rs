//! Environment behaviour: chained lookup, shadowing, and the root table.
use mal::env::Env;
use mal::types::MalType;

fn chars(s: &str) -> Vec<char> {
    s.chars().collect()
}

#[test]
fn new_root_holds_arithmetic() {
    let env = Env::new_root();
    assert!(matches!(env.get(0, &chars("+")), Some(MalType::BuiltinFunc(_))));
    assert!(matches!(env.get(0, &chars("/")), Some(MalType::BuiltinFunc(_))));
    assert!(env.get(0, &chars("missing")).is_none());
}

#[test]
fn lookup_walks_the_outer_chain() {
    let mut env = Env::new_root();
    env.set(0, &chars("x"), MalType::Int(1));
    let child = env.new(0);
    assert!(matches!(env.get(child, &chars("x")), Some(MalType::Int(1))));
    env.set(child, &chars("x"), MalType::Int(2));
    assert!(matches!(env.get(child, &chars("x")), Some(MalType::Int(2))));
    assert!(matches!(env.get(0, &chars("x")), Some(MalType::Int(1))));
}

#[test]
fn later_bindings_shadow_earlier_ones() {
    let mut env = Env::new_root();
    env.set(0, &chars("y"), MalType::Int(1));
    env.set(0, &chars("y"), MalType::Int(5));
    assert!(matches!(env.get(0, &chars("y")), Some(MalType::Int(5))));
}

#[test]
fn values_compare_structurally() {
    let a = MalType::List(vec![MalType::Int(1), MalType::Str(chars("s"))]);
    let b = MalType::Vector(vec![MalType::Int(1), MalType::Str(chars("s"))]);
    assert!(a.mal_eq(&b));
    assert!(a == b);
    assert!(!a.mal_eq(&MalType::Int(1)));
    let c = a.mal_clone();
    assert!(a.mal_eq(&c));
    assert!(a == c);
    // functions, atoms and hash-maps never compare equal, not even to themselves
    let m = MalType::HashMap(vec![(MalType::Int(1), MalType::Int(2))]);
    assert!(!m.mal_eq(&m.mal_clone()));
    assert!(!MalType::Atom(0).mal_eq(&MalType::Atom(0)));
}

#[test]
fn namespace_table_is_complete() {
    let ns = mal::builtins::NameSpace::new();
    assert_eq!(ns.builtin.len(), 27);
    let names: Vec<String> = ns.builtin.iter().map(|e| e.0.iter().collect()).collect();
    assert!(names.contains(&"swap!".to_string()));
    assert!(names.contains(&"read-string".to_string()));
}
