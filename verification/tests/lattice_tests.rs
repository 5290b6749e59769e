use cc2p::lattice::{widen_evidence, TypeTag};

const ALL: [TypeTag; 4] = [TypeTag::Integer, TypeTag::Float, TypeTag::Boolean, TypeTag::String];

#[test]
fn widen_follows_the_lattice() {
    assert_eq!(TypeTag::Integer.widen(TypeTag::Integer), TypeTag::Integer);
    assert_eq!(TypeTag::Integer.widen(TypeTag::Float), TypeTag::Float);
    assert_eq!(TypeTag::Float.widen(TypeTag::Integer), TypeTag::Float);
    assert_eq!(TypeTag::Float.widen(TypeTag::Float), TypeTag::Float);
    assert_eq!(TypeTag::Boolean.widen(TypeTag::Boolean), TypeTag::Boolean);
    assert_eq!(TypeTag::Boolean.widen(TypeTag::Integer), TypeTag::String);
    assert_eq!(TypeTag::Integer.widen(TypeTag::Boolean), TypeTag::String);
    assert_eq!(TypeTag::Boolean.widen(TypeTag::Float), TypeTag::String);
    assert_eq!(TypeTag::Float.widen(TypeTag::Boolean), TypeTag::String);
    assert_eq!(TypeTag::String.widen(TypeTag::String), TypeTag::String);
    for t in ALL {
        assert_eq!(t.widen(TypeTag::String), TypeTag::String);
        assert_eq!(TypeTag::String.widen(t), TypeTag::String);
    }
}

#[test]
fn widens_to_is_the_order() {
    assert!(TypeTag::Integer.widens_to(TypeTag::Float));
    assert!(!TypeTag::Float.widens_to(TypeTag::Integer));
    assert!(!TypeTag::Integer.widens_to(TypeTag::Boolean));
    assert!(!TypeTag::Boolean.widens_to(TypeTag::Integer));
    assert!(!TypeTag::Boolean.widens_to(TypeTag::Float));
    assert!(!TypeTag::String.widens_to(TypeTag::Float));
    for t in ALL {
        assert!(t.widens_to(t));
        assert!(t.widens_to(TypeTag::String));
    }
}

#[test]
fn widen_is_the_least_upper_bound() {
    for a in ALL {
        for b in ALL {
            let j = a.widen(b);
            assert!(a.widens_to(j));
            assert!(b.widens_to(j));
            assert_eq!(j, b.widen(a));
            for c in ALL {
                if a.widens_to(c) && b.widens_to(c) {
                    assert!(j.widens_to(c));
                }
                assert_eq!(a.widen(b).widen(c), a.widen(b.widen(c)));
            }
        }
    }
}

#[test]
fn no_evidence_changes_nothing() {
    assert_eq!(widen_evidence(None, None), None);
    for t in ALL {
        assert_eq!(widen_evidence(None, Some(t)), Some(t));
        assert_eq!(widen_evidence(Some(t), None), Some(t));
    }
    assert_eq!(widen_evidence(Some(TypeTag::Integer), Some(TypeTag::Float)), Some(TypeTag::Float));
    assert_eq!(
        widen_evidence(Some(TypeTag::Boolean), Some(TypeTag::Integer)),
        Some(TypeTag::String)
    );
}
