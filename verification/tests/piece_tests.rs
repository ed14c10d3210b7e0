use quarto::piece::{Color, Height, Piece, Shape, Top};

#[test]
fn sixteen_distinct_pieces_round_trip() {
    let mut seen: Vec<String> = Vec::new();
    for i in 0..16 {
        let p = Piece::from_index(i);
        assert_eq!(p.index(), i);
        let text = p.to_text();
        assert_eq!(text.len(), 4);
        assert!(!seen.contains(&text));
        let back = Piece::from_text(&text);
        assert_eq!(back, Some(p));
        seen.push(text);
    }
}

#[test]
fn text_form_is_attribute_order() {
    let p = Piece {
        color: Color::Black,
        shape: Shape::Square,
        height: Height::Tall,
        top: Top::Flat,
    };
    assert_eq!(p.to_text(), "BSTF");
    let q = Piece {
        color: Color::White,
        shape: Shape::Circle,
        height: Height::Short,
        top: Top::Hole,
    };
    assert_eq!(q.to_text(), "WCSH");
    assert_eq!(Piece::from_index(0).to_text(), "BSTF");
    assert_eq!(Piece::from_index(15).to_text(), "WCSH");
}

#[test]
fn parse_accepts_every_rendered_code() {
    assert_eq!(
        Piece::from_text("WSTH"),
        Some(Piece {
            color: Color::White,
            shape: Shape::Square,
            height: Height::Tall,
            top: Top::Hole,
        })
    );
    assert_eq!(
        Piece::from_text("BCSF"),
        Some(Piece {
            color: Color::Black,
            shape: Shape::Circle,
            height: Height::Short,
            top: Top::Flat,
        })
    );
}

#[test]
fn parse_rejects_bad_codes() {
    assert_eq!(Piece::from_text("XYZZ"), None);
    assert_eq!(Piece::from_text(""), None);
    assert_eq!(Piece::from_text("BST"), None);
    assert_eq!(Piece::from_text("BSTFF"), None);
    assert_eq!(Piece::from_text("ZSTF"), None);
    assert_eq!(Piece::from_text("BZTF"), None);
    assert_eq!(Piece::from_text("BSXF"), None);
    assert_eq!(Piece::from_text("BSTX"), None);
    assert_eq!(Piece::from_text("bstf"), None);
}
