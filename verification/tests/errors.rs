use dlx::p::Preproc;
use dlx::x::INodes;
use dlx::{c, m, x};
use dlx::{Count, Error, OptOrder, Rng, Spec};

fn spec_err(text: &str) -> Error {
    match Spec::new(text, false) {
        Ok(_) => panic!("accepted: {}", text),
        Err(e) => e,
    }
}

fn x_err(text: &str) -> Error {
    let spec = Spec::new(text, false).unwrap();
    match x::Problem::from_spec(&spec, OptOrder::Sequential) {
        Ok(_) => panic!("accepted: {}", text),
        Err(e) => e,
    }
}

fn c_err(text: &str) -> Error {
    let spec = Spec::new(text, false).unwrap();
    match c::Problem::from_spec(&spec) {
        Ok(_) => panic!("accepted: {}", text),
        Err(e) => e,
    }
}

fn m_err(text: &str) -> Error {
    let spec = Spec::new(text, false).unwrap();
    match m::Problem::from_spec(&spec, OptOrder::Sequential) {
        Ok(_) => panic!("accepted: {}", text),
        Err(e) => e,
    }
}

#[test]
fn spec_without_items() {
    assert_eq!(spec_err(""), Error::NoItems);
    assert_eq!(spec_err("| only a comment\n\n   \n"), Error::NoItems);
}

#[test]
fn spec_without_options() {
    assert_eq!(spec_err("a b c"), Error::NoOptions);
    assert_eq!(spec_err("a b c\n| comment\n"), Error::NoOptions);
}

#[test]
fn spec_with_too_many_separators() {
    assert_eq!(spec_err("a | b | c\na"), Error::TooManySeparators);
}

#[test]
fn spec_with_empty_secondary_items() {
    assert_eq!(spec_err("a |\na"), Error::NoSecondaryItems);
}

#[test]
fn spec_reads_items_and_options() {
    let spec = Spec::new("  b #a c | x y \n| comment\n  a b  \n\nc x\n", true).unwrap();
    assert_eq!(spec.primary, vec!["#a", "b", "c"]);
    assert_eq!(spec.secondary, vec!["x", "y"]);
    assert_eq!(spec.opts, vec![vec!["a", "b"], vec!["c", "x"]]);
    let spec = Spec::new("b #a c\na", false).unwrap();
    assert_eq!(spec.primary, vec!["b", "c", "#a"]);
}

#[test]
fn duplicate_item_names() {
    assert_eq!(x_err("p q p\np"), Error::DuplicateItemNames);
    assert_eq!(m_err("p | p\np"), Error::DuplicateItemNames);
}

#[test]
fn invalid_item_names() {
    assert_eq!(x_err("p-q\np-q"), Error::InvalidItemName);
    assert_eq!(m_err("p q.r\np"), Error::InvalidItemName);
    let spec = Spec::new("é1 #2\né1 #2", false).unwrap();
    assert!(x::Problem::from_spec(&spec, OptOrder::Sequential).is_ok());
}

#[test]
fn invalid_item_in_option() {
    assert_eq!(x_err("p q\np r"), Error::InvalidItem);
    assert_eq!(c_err("p | x\ny:A"), Error::InvalidItem);
}

#[test]
fn duplicate_items_in_option() {
    assert_eq!(x_err("p q\np q p"), Error::DuplicateItemsInOption);
    assert_eq!(c_err("p | x\np x:A x:A"), Error::DuplicateItemsInOption);
}

#[test]
fn color_errors() {
    assert_eq!(c_err("p | x\np x:A:B"), Error::TooManyColorSeparators);
    assert_eq!(c_err("p | x\np x:AB"), Error::ColorNotSingleChar);
    assert_eq!(c_err("p | x\np:A x"), Error::ColorOnPrimary);
}

#[test]
fn multiplicity_errors() {
    assert_eq!(m_err("1|2|p\np"), Error::TooManyMultiplicitySeparators);
    assert_eq!(m_err("1:2:3|p\np"), Error::TooManyBoundSeparators);
    assert_eq!(m_err("x|p\np"), Error::NonNumericBound);
    assert_eq!(m_err("1:y|p\np"), Error::NonNumericBound);
}

#[test]
fn error_messages() {
    assert_eq!(Error::NoItems.message(), "No items specified");
    assert_eq!(Error::ColorOnPrimary.message(), "Color on primary item");
}

#[test]
fn primary_item_in_no_option() {
    let items = INodes::new(3, 0);
    let os: Vec<Vec<Count>> = vec![vec![0, 2], vec![2]];
    let opts = x::ONodes::new(3, 3, &os, OptOrder::Sequential);
    let problem = x::Problem::new(items, opts);
    let mut preproc = Preproc::new(&problem);
    assert_eq!(preproc.reduce(10), Err(Error::PrimaryNotInAnyOption(2)));
}

#[test]
fn rng_sequence() {
    let mut rng = Rng::new(1);
    assert_eq!(rng.next(), 270369);
    assert_eq!(rng.next(), 67634689);
    assert_eq!(rng.next(), 2647435461);
    let mut rng = Rng::new(1);
    assert_eq!(rng.uniform(10), 9);
    let mut rng = Rng::new(2463534242);
    assert_eq!(rng.uniform(10), 5);
}
