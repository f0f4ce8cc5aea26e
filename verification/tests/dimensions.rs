//! Labels and analytical dimensions.

use doubleentry::dimensions::{MAX_DIMENSIONS, MAX_LABEL_LEN};
use doubleentry::{Canonical, DimensionError, Dimensions, Label};

fn label(s: &str) -> Label {
    Label::new(s).expect("valid label")
}

#[test]
fn validates_labels() {
    assert!(Label::new("Network").is_ok());
    assert_eq!(Label::new(""), Err(DimensionError::Empty));
    assert_eq!(
        Label::new(&"x".repeat(MAX_LABEL_LEN + 1)),
        Err(DimensionError::TooLong)
    );
    assert_eq!(
        Label::new("bad\nvalue"),
        Err(DimensionError::ControlCharacter)
    );
    assert!(Label::new(&"x".repeat(MAX_LABEL_LEN)).is_ok());
}

#[test]
fn empty_dimensions_report_empty() {
    assert!(Dimensions::none().is_empty());
    let d = Dimensions::none()
        .with(label("activity"), label("Network"))
        .expect("fits");
    assert!(!d.is_empty());
    assert_eq!(d.len(), 1);
    assert!(d.contains("activity"));
    assert!(!d.contains("segment"));
}

#[test]
fn setting_an_axis_twice_replaces_it() {
    let d = Dimensions::none()
        .with(label("activity"), label("Network"))
        .expect("fits")
        .with(label("activity"), label("Supply"))
        .expect("fits");
    assert_eq!(d.len(), 1);
    assert_eq!(d.get("activity").map(Label::as_str), Some("Supply"));
}

#[test]
fn the_axis_count_is_bounded() {
    let mut d = Dimensions::none();
    for i in 0..MAX_DIMENSIONS {
        d = d
            .with(label(&format!("axis{i}")), label("v"))
            .expect("fits");
    }
    assert_eq!(
        d.clone().with(label("one-too-many"), label("v")),
        Err(DimensionError::TooManyDimensions)
    );
    // Replacing an existing axis at the bound is still fine.
    assert!(d.with(label("axis0"), label("w")).is_ok());
}

#[test]
fn encoding_is_order_independent_and_stable() {
    let a = Dimensions::none()
        .with(label("activity"), label("N"))
        .expect("fits")
        .with(label("segment"), label("E"))
        .expect("fits");
    let b = Dimensions::none()
        .with(label("segment"), label("E"))
        .expect("fits")
        .with(label("activity"), label("N"))
        .expect("fits");
    assert_eq!(a.to_canonical_bytes(), b.to_canonical_bytes());
}

#[test]
fn encoding_distinguishes_the_axis_from_the_value() {
    // Same strings, swapped roles: the encoding must tell them apart.
    let forward = Dimensions::none()
        .with(label("a"), label("b"))
        .expect("fits");
    let backward = Dimensions::none()
        .with(label("b"), label("a"))
        .expect("fits");
    assert_ne!(forward.to_canonical_bytes(), backward.to_canonical_bytes());
}

#[test]
fn encoding_distinguishes_a_split_axis_name() {
    // Length prefixes: ("ab","c") must not encode as ("a","bc").
    let one = Dimensions::none()
        .with(label("ab"), label("c"))
        .expect("fits");
    let other = Dimensions::none()
        .with(label("a"), label("bc"))
        .expect("fits");
    assert_ne!(one.to_canonical_bytes(), other.to_canonical_bytes());
}

#[test]
fn an_absent_axis_is_not_an_empty_value() {
    let absent = Dimensions::none();
    let present = Dimensions::none()
        .with(label("activity"), label("-"))
        .expect("fits");
    assert_ne!(absent.to_canonical_bytes(), present.to_canonical_bytes());
}

// ── edges ───────────────────────────────────────────────────────────────

#[test]
fn labels_are_counted_in_characters() {
    assert!(Label::new(&"é".repeat(MAX_LABEL_LEN)).is_ok());
    assert_eq!(
        Label::new(&"é".repeat(MAX_LABEL_LEN + 1)),
        Err(DimensionError::TooLong)
    );
    assert_eq!(
        Label::new("\u{85}"),
        Err(DimensionError::ControlCharacter)
    );
    assert_eq!(label("x y").to_string(), "x y");
}

#[test]
fn dimensions_walk_in_axis_order_and_encode_exactly() {
    let d = Dimensions::from_pairs(&[
        (label("b"), label("2")),
        (label("a"), label("1")),
        (label("b"), label("3")),
    ])
    .expect("fits");
    let walked: Vec<(&str, &str)> = d
        .iter()
        .iter()
        .map(|(axis, value)| (axis.as_str(), value.as_str()))
        .collect();
    assert_eq!(walked, vec![("a", "1"), ("b", "3")]);
    assert_eq!(
        d.to_canonical_bytes(),
        vec![2, 0, 0, 0, 1, 0, 0, 0, 97, 1, 0, 0, 0, 49, 1, 0, 0, 0, 98, 1, 0, 0, 0, 51]
    );
    assert_eq!(d.get("c"), None);
    assert!(d.same(&d.clone()) && !d.same(&Dimensions::none()));
}

#[test]
fn setting_an_axis_hands_back_what_it_held() {
    let mut d = Dimensions::default();
    assert_eq!(d.set(label("a"), label("1")), Ok(None));
    assert_eq!(d.set(label("a"), label("2")), Ok(Some(label("1"))));
    let too_many: Vec<(Label, Label)> = (0..=MAX_DIMENSIONS)
        .map(|i| (label(&format!("axis{i}")), label("v")))
        .collect();
    assert_eq!(
        Dimensions::from_pairs(&too_many),
        Err(DimensionError::TooManyDimensions)
    );
}

#[test]
fn labels_read_from_text_and_dimensions_can_be_walked() {
    assert_eq!("x".parse::<Label>(), Ok(label("x")));
    assert_eq!("".parse::<Label>(), Err(DimensionError::Empty));
    let d = Dimensions::none()
        .with(label("b"), label("2"))
        .expect("fits")
        .with(label("a"), label("1"))
        .expect("fits");
    let mut axes = Vec::new();
    for (axis, value) in &d {
        axes.push(format!("{}={}", axis.as_str(), value.as_str()));
    }
    assert_eq!(axes, vec!["a=1", "b=2"]);
}
