//! Tests for the miniature sample API surface.

use cargo_doc_docusaurus::sample::{add, multiply, Color, Container, Point};

#[test]
fn test_add() {
    assert_eq!(add(2, 2), 4);
    assert_eq!(add(-3, 3), 0);
}

#[test]
fn test_multiply() {
    assert_eq!(multiply(3, 4), 12);
    assert_eq!(multiply(-2, 5), -10);
}

#[test]
fn test_container_new() {
    let c = Container::new(41u8);
    assert_eq!(c.value, 41);
    let p = Container::new(Point { x: 1, y: 2 });
    assert_eq!(p.value.x, 1);
    assert_eq!(p.value.y, 2);
}

#[test]
fn test_color_variants() {
    let c = Color::Rgb(1, 2, 3);
    match c {
        Color::Rgb(r, g, b) => {
            assert_eq!((r, g, b), (1, 2, 3));
        }
        _ => panic!("expected the custom variant"),
    }
    let red = Color::Red;
    assert!(matches!(red, Color::Red));
}
