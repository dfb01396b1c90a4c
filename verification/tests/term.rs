//! The term language: shapes, keys, hashes, stand-ins and writing.

use hashconsing::hash::mix;
use hashconsing::hash::HASH_SEED;
use hashconsing::term::ActualTerm;
use hashconsing::term::TermKey;
use hashconsing::Candidate;
use hashconsing::HConsable;
use hashconsing::HConsign;
use hashconsing::HashIntern;

fn var(name: &str) -> ActualTerm<String> {
    ActualTerm::Var(String::from(name))
}

#[test]
fn terms_are_written_as_text() {
    let mut consign = HConsign::empty();
    let v0 = consign.var("0");
    let v3 = consign.var("3");
    let lam = consign.lam(v3.clone());
    let app = consign.app(lam.clone(), v0.clone());
    let nested = consign.lam(app.clone());
    assert_eq!(v0.get().to_text(), "v0");
    assert_eq!(v3.get().to_text(), "v3");
    assert_eq!(lam.get().to_text(), "(v3)");
    assert_eq!(app.get().to_text(), "(v3).v0");
    assert_eq!(nested.get().to_text(), "((v3).v0)");
    assert_eq!(consign.var("").get().to_text(), "v");
}

#[test]
fn borrowed_terms_are_written_like_owned_ones() {
    let mut consign = HConsign::empty();
    let x = consign.var("x");
    let y = consign.var("y");
    assert_eq!(ActualTerm::Var("x").to_text(), "vx");
    assert_eq!(ActualTerm::<&str>::Lam(x.clone()).to_text(), "(vx)");
    assert_eq!(ActualTerm::<&str>::App(x.clone(), y.clone()).to_text(), "vx.vy");
}

#[test]
fn shape_hash_mixes_kind_then_content() {
    let mut consign = HConsign::empty();
    let v0 = consign.var("0");
    let v3 = consign.var("3");
    let lam = consign.lam(v3.clone());
    let app = consign.app(lam.clone(), v0.clone());
    assert_eq!((v0.uid(), v3.uid(), lam.uid(), app.uid()), (0, 1, 2, 3));
    assert_eq!(v0.get().shape_hash(), 0x0832_9807_b4eb_8b1d);
    assert_eq!(v3.get().shape_hash(), 0x0832_9507_b4eb_8604);
    assert_eq!(lam.get().shape_hash(), 0x082f_2307_b4e8_8e77);
    assert_eq!(lam.get().shape_hash(), mix(mix(HASH_SEED, 1), 1));
    assert_eq!(app.get().shape_hash(), 0xeaa6_d418_75e4_f35f);
    assert_eq!(app.get().shape_hash(), mix(mix(mix(HASH_SEED, 2), 2), 0));
}

#[test]
fn a_stand_in_hashes_like_the_value() {
    let mut consign = HConsign::empty();
    let x = consign.var("x");
    let y = consign.var("y");
    assert_eq!(ActualTerm::Var("x").lookup_hash(), var("x").shape_hash());
    assert_eq!(var("x").lookup_hash(), var("x").shape_hash());
    assert_eq!(
        ActualTerm::<&str>::Lam(x.clone()).lookup_hash(),
        ActualTerm::<String>::Lam(x.clone()).shape_hash()
    );
    assert_eq!(
        ActualTerm::<&str>::App(x.clone(), y.clone()).lookup_hash(),
        ActualTerm::<String>::App(x.clone(), y.clone()).shape_hash()
    );
    assert_ne!(
        ActualTerm::<&str>::App(x.clone(), y.clone()).lookup_hash(),
        ActualTerm::<&str>::App(y.clone(), x.clone()).lookup_hash()
    );
}

#[test]
fn key_holds_names_and_identifiers() {
    let mut consign = HConsign::empty();
    let x = consign.var("x");
    let y = consign.var("y");
    assert!(matches!(var("x").key(), TermKey::Var(name) if name == "x"));
    assert!(matches!(ActualTerm::<String>::Lam(y.clone()).key(), TermKey::Lam(1)));
    assert!(matches!(ActualTerm::<String>::App(y.clone(), x.clone()).key(), TermKey::App(1, 0)));
}

#[test]
fn has_key_compares_shapes() {
    let mut consign = HConsign::empty();
    let x = consign.var("x");
    let y = consign.var("y");
    let lam_x = ActualTerm::<String>::Lam(x.clone());
    let app_xy = ActualTerm::<String>::App(x.clone(), y.clone());
    assert!(var("x").has_key(&TermKey::Var(String::from("x"))));
    assert!(!var("x").has_key(&TermKey::Var(String::from("y"))));
    assert!(!var("x").has_key(&TermKey::Lam(0)));
    assert!(lam_x.has_key(&TermKey::Lam(0)));
    assert!(!lam_x.has_key(&TermKey::Lam(1)));
    assert!(!lam_x.has_key(&TermKey::App(0, 0)));
    assert!(app_xy.has_key(&TermKey::App(0, 1)));
    assert!(!app_xy.has_key(&TermKey::App(1, 0)));
    assert!(!app_xy.has_key(&TermKey::App(0, 0)));
    assert!(!app_xy.has_key(&TermKey::Var(String::from("x"))));
    assert!(app_xy.has_key(&app_xy.key()));
}

#[test]
fn a_stand_in_matches_the_key_of_its_value() {
    let mut consign = HConsign::empty();
    let x = consign.var("x");
    let y = consign.var("y");
    assert!(ActualTerm::Var("x").matches(&var("x").key()));
    assert!(!ActualTerm::Var("x").matches(&var("xx").key()));
    assert!(!ActualTerm::Var("x").matches(&TermKey::Lam(0)));
    assert!(ActualTerm::<&str>::Lam(x.clone()).matches(&TermKey::Lam(0)));
    assert!(!ActualTerm::<&str>::Lam(y.clone()).matches(&TermKey::Lam(0)));
    assert!(ActualTerm::<&str>::App(x.clone(), y.clone()).matches(&TermKey::App(0, 1)));
    assert!(!ActualTerm::<&str>::App(x.clone(), y.clone()).matches(&TermKey::App(1, 1)));
    assert!(var("x").matches(&TermKey::Var(String::from("x"))));
}

#[test]
fn intern_builds_the_owned_term() {
    let mut consign = HConsign::empty();
    let x = consign.var("x");
    let y = consign.var("y");
    assert_eq!(ActualTerm::Var("x").intern(), var("x"));
    assert_eq!(ActualTerm::Var("").intern(), var(""));
    assert_eq!(ActualTerm::<&str>::Lam(x.clone()).intern(), ActualTerm::Lam(x.clone()));
    assert_eq!(
        ActualTerm::<&str>::App(x.clone(), y.clone()).intern(),
        ActualTerm::App(x.clone(), y.clone())
    );
}

#[test]
fn the_factory_makes_canonical_terms() {
    let mut consign = HConsign::empty();
    let x = consign.var("x");
    let id = consign.lam(x.clone());
    let twice = consign.app(id.clone(), id.clone());
    assert_eq!(*x.get(), var("x"));
    assert_eq!(*id.get(), ActualTerm::Lam(x.clone()));
    assert_eq!(*twice.get(), ActualTerm::App(id.clone(), id.clone()));
    assert_eq!(consign.var("x").uid(), x.uid());
    assert_eq!(consign.lam(x.clone()).uid(), id.uid());
    assert_eq!(consign.app(id.clone(), id.clone()).uid(), twice.uid());
    assert_eq!(consign.len(), 3);
}

#[test]
fn clone_gives_the_same_term() {
    let mut consign = HConsign::empty();
    let x = consign.var("x");
    let y = consign.var("y");
    assert_eq!(var("x").clone(), var("x"));
    assert_eq!(ActualTerm::Var("x").clone(), ActualTerm::Var("x"));
    let lam = ActualTerm::<String>::Lam(x.clone());
    let app = ActualTerm::<String>::App(x.clone(), y.clone());
    assert!(matches!(lam.clone(), ActualTerm::Lam(t) if std::ptr::eq(t.get(), x.get())));
    assert!(matches!(
        app.clone(),
        ActualTerm::App(u, v) if u.uid() == x.uid() && v.uid() == y.uid()
    ));
    assert_ne!(var("x").clone(), var("y"));
}
