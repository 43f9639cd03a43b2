//! Behavioural tests of the functional-dependency algebra: closures,
//! minimal covers and candidate keys, including the documented properties on
//! concrete dependency sets.

use dbapp::Attribute;
use dbapp::AttributeSet;
use dbapp::Dependency;
use dbapp::DependencySet;

fn attr(name: &str) -> Attribute {
    Attribute::new(name.as_bytes().to_vec())
}

fn aset(names: &[&str]) -> AttributeSet {
    let mut s = AttributeSet::new();
    for n in names {
        s.insert(attr(n));
    }
    s
}

fn dep(l: &[&str], r: &[&str]) -> Dependency {
    Dependency::from_set_pair((aset(l), aset(r)))
}

fn dset(deps: Vec<Dependency>) -> DependencySet {
    let mut s = DependencySet::new();
    for d in deps {
        s.insert(d);
    }
    s
}

/// The dependency set of the worked scenario: AB -> CD, C -> EF, A -> F,
/// E -> F.
fn scenario() -> DependencySet {
    dset(vec![
        dep(&["A", "B"], &["C", "D"]),
        dep(&["C"], &["E", "F"]),
        dep(&["A"], &["F"]),
        dep(&["E"], &["F"]),
    ])
}

#[test]
fn effective_attributes_of_scenario() {
    let fd = scenario();
    let u = fd.effective_attributes();
    assert!(u.set_eq(&aset(&["A", "B", "C", "D", "E", "F"])));
}

#[test]
fn closure_of_a_reaches_only_f() {
    let fd = scenario();
    let c = aset(&["A"]).closure(&fd);
    assert!(c.set_eq(&aset(&["A", "F"])));
}

#[test]
fn closure_of_ab_reaches_everything() {
    let fd = scenario();
    let c = aset(&["A", "B"]).closure(&fd);
    assert!(c.set_eq(&aset(&["A", "B", "C", "D", "E", "F"])));
}

#[test]
fn closure_of_empty_set_under_no_dependencies_is_empty() {
    let c = aset(&[]).closure(&DependencySet::new());
    assert_eq!(c.len(), 0);
}

#[test]
fn closure_contains_base_set() {
    let fd = scenario();
    for names in [&["A"][..], &["B", "C"][..], &["D", "E", "F"][..]] {
        let x = aset(names);
        assert!(x.closure(&fd).is_superset(&x));
    }
}

#[test]
fn closure_is_monotonic() {
    let fd = scenario();
    let x = aset(&["A"]);
    let y = aset(&["A", "B"]);
    assert!(x.is_subset(&y));
    assert!(x.closure(&fd).is_subset(&y.closure(&fd)));
}

#[test]
fn closure_is_idempotent() {
    let fd = scenario();
    for names in [&["A"][..], &["C"][..], &["A", "B"][..], &[][..]] {
        let once = aset(names).closure(&fd);
        let twice = once.closure(&fd);
        assert!(once.set_eq(&twice));
    }
}

#[test]
fn attribute_set_deduplicates_on_insert() {
    let mut s = aset(&["A"]);
    s.insert(attr("A"));
    assert_eq!(s.len(), 1);
    s.insert(attr("B"));
    assert_eq!(s.len(), 2);
}

#[test]
fn attribute_set_remove_and_difference() {
    let mut s = aset(&["A", "B", "C"]);
    s.remove(&attr("B"));
    assert!(s.set_eq(&aset(&["A", "C"])));
    let d = aset(&["A", "B", "C"]).difference(&aset(&["B"]));
    assert!(d.set_eq(&aset(&["A", "C"])));
}

#[test]
fn dependency_set_deduplicates_on_insert() {
    let fd = dset(vec![dep(&["A"], &["B"]), dep(&["A"], &["B"])]);
    assert_eq!(fd.len(), 1);
}

#[test]
fn minimize_drops_redundant_determinant_attribute() {
    let fd = dset(vec![dep(&["A"], &["C"])]);
    let m = dep(&["A", "B"], &["C"]).minimize(&fd);
    assert!(m.left().set_eq(&aset(&["A"])));
    assert!(m.right().set_eq(&aset(&["C"])));
}

#[test]
fn minimize_keeps_necessary_attributes() {
    let fd = scenario();
    let m = dep(&["A", "B"], &["C", "D"]).minimize(&fd);
    assert!(m.left().set_eq(&aset(&["A", "B"])));
}

#[test]
fn minimal_cover_of_scenario() {
    let fd = scenario();
    let g = fd.minimal_cover();
    assert_eq!(g.len(), 4);
    assert!(g.contains_dep(&dep(&["A", "B"], &["C", "D"])));
    assert!(g.contains_dep(&dep(&["C"], &["E"])));
    assert!(g.contains_dep(&dep(&["A"], &["F"])));
    assert!(g.contains_dep(&dep(&["E"], &["F"])));
}

#[test]
fn minimal_cover_drops_trivial_dependencies() {
    let fd = dset(vec![dep(&["A"], &["A"]), dep(&["A", "B"], &["A", "B"])]);
    let g = fd.minimal_cover();
    assert_eq!(g.len(), 0);
}

#[test]
fn minimal_cover_merges_equal_determinants() {
    let fd = dset(vec![dep(&["A"], &["B"]), dep(&["A"], &["C"])]);
    let g = fd.minimal_cover();
    assert_eq!(g.len(), 1);
    assert!(g.contains_dep(&dep(&["A"], &["B", "C"])));
}

#[test]
fn minimal_cover_has_no_trivial_dependency() {
    let fd = scenario();
    let g = fd.minimal_cover();
    for d in g.list() {
        assert!(!d.left().set_eq(d.right()));
    }
}

#[test]
fn cover_preserves_every_closure() {
    let fd = scenario();
    let g = fd.minimal_cover();
    let names = ["A", "B", "C", "D", "E", "F"];
    for mask in 0u32..64 {
        let mut picked: Vec<&str> = Vec::new();
        for (b, n) in names.iter().enumerate() {
            if mask & (1 << b) != 0 {
                picked.push(n);
            }
        }
        let x = aset(&picked);
        assert!(x.closure(&fd).set_eq(&x.closure(&g)));
    }
}

#[test]
fn cover_dependencies_are_all_necessary() {
    let fd = scenario();
    let g = fd.minimal_cover();
    let deps = g.list();
    for skip in 0..deps.len() {
        let mut rest = DependencySet::new();
        for (k, d) in deps.iter().enumerate() {
            if k != skip {
                rest.insert(dep_copy(d));
            }
        }
        // Removing one dependency must change some closure; its own
        // determinant is a witness.
        let left = deps[skip].left();
        assert!(!left.closure(&g).set_eq(&left.closure(&rest)));
    }
}

fn dep_copy(d: &Dependency) -> Dependency {
    let mut l = AttributeSet::new();
    for a in d.left().set() {
        l.insert(Attribute::new(a.name().clone()));
    }
    let mut r = AttributeSet::new();
    for a in d.right().set() {
        r.insert(Attribute::new(a.name().clone()));
    }
    Dependency::from_set_pair((l, r))
}

#[test]
fn cover_rhs_attributes_are_all_necessary() {
    let fd = scenario();
    let g = fd.minimal_cover();
    let deps = g.list();
    for pick in 0..deps.len() {
        let rights: Vec<Attribute> =
            deps[pick].right().set().iter().map(|a| Attribute::new(a.name().clone())).collect();
        for a in rights {
            let mut modified = DependencySet::new();
            for (k, d) in deps.iter().enumerate() {
                if k != pick {
                    modified.insert(dep_copy(d));
                } else {
                    let mut shrunk = dep_copy(d);
                    shrunk.right_mut().remove(&a);
                    modified.insert(shrunk);
                }
            }
            let left = deps[pick].left();
            assert!(!left.closure(&g).set_eq(&left.closure(&modified)));
        }
    }
}

#[test]
fn cover_lhs_attributes_are_all_necessary() {
    let fd = scenario();
    let g = fd.minimal_cover();
    let deps = g.list();
    for pick in 0..deps.len() {
        let lefts: Vec<Attribute> =
            deps[pick].left().set().iter().map(|a| Attribute::new(a.name().clone())).collect();
        for a in lefts {
            let mut modified = DependencySet::new();
            for (k, d) in deps.iter().enumerate() {
                if k != pick {
                    modified.insert(dep_copy(d));
                } else {
                    let mut shrunk = dep_copy(d);
                    shrunk.left_mut().remove(&a);
                    modified.insert(shrunk);
                }
            }
            // The shrunken determinant reaches the dependent in the
            // modified cover but not in the reduced one.
            let mut shrunk_left = dep_copy(&deps[pick]);
            shrunk_left.left_mut().remove(&a);
            let reaches_modified =
                shrunk_left.left().closure(&modified).is_superset(deps[pick].right());
            let reaches_reduced = shrunk_left.left().closure(&g).is_superset(deps[pick].right());
            assert!(reaches_modified);
            assert!(!reaches_reduced);
        }
    }
}

#[test]
fn candidate_key_of_scenario_is_ab() {
    let fd = scenario();
    let keys = fd.candidate_keys(&fd.effective_attributes());
    assert_eq!(keys.len(), 1);
    assert!(keys[0].set_eq(&aset(&["A", "B"])));
}

#[test]
fn candidate_keys_are_valid_and_minimal() {
    let fd = scenario();
    let u = fd.effective_attributes();
    let keys = fd.candidate_keys(&u);
    for k in &keys {
        assert!(k.closure(&fd).is_superset(&u));
        let attrs: Vec<Attribute> =
            k.set().iter().map(|a| Attribute::new(a.name().clone())).collect();
        for a in attrs {
            let mut smaller = AttributeSet::new();
            for b in k.set() {
                smaller.insert(Attribute::new(b.name().clone()));
            }
            smaller.remove(&a);
            assert!(!smaller.closure(&fd).is_superset(&u));
        }
    }
}

#[test]
fn candidate_keys_match_exhaustive_search() {
    let fd = scenario();
    let u = fd.effective_attributes();
    let names = ["A", "B", "C", "D", "E", "F"];
    // Find all superkeys by brute force, then keep the minimal ones.
    let mut superkey_masks: Vec<u32> = Vec::new();
    for mask in 0u32..64 {
        let mut picked: Vec<&str> = Vec::new();
        for (b, n) in names.iter().enumerate() {
            if mask & (1 << b) != 0 {
                picked.push(n);
            }
        }
        if aset(&picked).closure(&fd).is_superset(&u) {
            superkey_masks.push(mask);
        }
    }
    let minimal: Vec<u32> = superkey_masks
        .iter()
        .copied()
        .filter(|m| !superkey_masks.iter().any(|s| s != m && s & m == *s))
        .collect();
    let keys = fd.candidate_keys(&u);
    assert_eq!(keys.len(), minimal.len());
    for m in &minimal {
        let mut picked: Vec<&str> = Vec::new();
        for (b, n) in names.iter().enumerate() {
            if m & (1 << b) != 0 {
                picked.push(n);
            }
        }
        let key = aset(&picked);
        assert!(keys.iter().any(|k| k.set_eq(&key)));
    }
}

#[test]
fn two_candidate_keys_when_attributes_determine_each_other() {
    let fd = dset(vec![dep(&["A"], &["B"]), dep(&["B"], &["A"])]);
    let keys = fd.candidate_keys(&fd.effective_attributes());
    assert_eq!(keys.len(), 2);
    assert!(keys.iter().any(|k| k.set_eq(&aset(&["A"]))));
    assert!(keys.iter().any(|k| k.set_eq(&aset(&["B"]))));
}

#[test]
fn parse_attribute_set_splits_and_trims() {
    let s = dbapp::text::parse_attribute_set(&b" A, B ,C ".to_vec());
    assert!(s.set_eq(&aset(&["A", "B", "C"])));
}

#[test]
fn parse_dependency_requires_arrow() {
    assert!(dbapp::text::parse_dependency(&b"A,B C".to_vec()).is_none());
    let d = dbapp::text::parse_dependency(&b" A,B -> C,D ".to_vec()).unwrap();
    assert!(d.left().set_eq(&aset(&["A", "B"])));
    assert!(d.right().set_eq(&aset(&["C", "D"])));
}

#[test]
fn parse_dependency_set_matches_scenario() {
    let text = "\n        A,B -> C,D\n        C->E,F\n        A->F\n        E->F\n    ";
    let fd = dbapp::text::parse_dependency_set(&text.as_bytes().to_vec()).unwrap();
    let expected = scenario();
    assert_eq!(fd.len(), 4);
    for d in expected.list() {
        assert!(fd.contains_dep(d));
    }
}

#[test]
fn parse_dependency_set_ignores_blank_lines_and_fails_atomically() {
    let ok = dbapp::text::parse_dependency_set(&b"A->B\n\n  \nB->C".to_vec()).unwrap();
    assert_eq!(ok.len(), 2);
    assert!(dbapp::text::parse_dependency_set(&b"A->B\nnonsense\nB->C".to_vec()).is_none());
}
