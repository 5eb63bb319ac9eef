use scr_to_svg::color::{default_color_scheme, Color, ColorScheme};
use scr_to_svg::cube_puzzle::{get_cube_size, CubePuzzle};
use scr_to_svg::utils::color::Color as PaletteColor;
use scr_to_svg::element::Element;
use scr_to_svg::puzzles::cube::{Face, ScrambleError};
use scr_to_svg::puzzles::new;
use scr_to_svg::svg::{Dimension, Svg};

fn solved(size: usize) -> Vec<Vec<Vec<i8>>> {
    (0..6i8)
        .map(|f| (0..size).map(|_| (0..size).map(|_| f).collect()).collect())
        .collect()
}

#[test]
fn empty_scramble_is_identity() {
    for size in 2..=7usize {
        let mut cube = CubePuzzle::new(size);
        cube.apply_algorithm("").unwrap();
        assert_eq!(cube.state, solved(size));
        cube.apply_algorithm("  \t \n ").unwrap();
        assert_eq!(cube.state, solved(size));
    }
}

#[test]
fn four_quarter_turns_restore_the_state() {
    for size in 2..=7usize {
        for face in ["R", "U", "F", "L", "D", "B"] {
            let mut cube = CubePuzzle::new(size);
            let four = format!("{f} {f} {f} {f}", f = face);
            cube.apply_algorithm(&four).unwrap();
            assert_eq!(cube.state, solved(size), "face {face} size {size}");
        }
    }
}

#[test]
fn a_turn_and_its_inverse_cancel() {
    for size in 2..=7usize {
        for mv in ["R", "U", "F", "L", "D", "B"] {
            let mut cube = CubePuzzle::new(size);
            cube.apply_algorithm(&format!("{mv} {mv}'")).unwrap();
            assert_eq!(cube.state, solved(size), "{mv} size {size}");
            cube.apply_algorithm(&format!("{mv}2 {mv}2")).unwrap();
            assert_eq!(cube.state, solved(size), "{mv}2 size {size}");
            cube.apply_algorithm(&format!("{mv}w {mv}w'")).unwrap();
            assert_eq!(cube.state, solved(size), "{mv}w size {size}");
        }
    }
    // deeper and wide layers
    let mut cube = CubePuzzle::new(6);
    cube.apply_algorithm("3Fw 3Fw'").unwrap();
    assert_eq!(cube.state, solved(6));
    cube.apply_algorithm("3R 3R'").unwrap();
    assert_eq!(cube.state, solved(6));
    cube.apply_algorithm("3Uw2 3Uw2").unwrap();
    assert_eq!(cube.state, solved(6));
}

#[test]
fn half_turn_equals_two_quarter_turns() {
    for size in 2..=7usize {
        for mv in ["R", "U", "F", "L", "D", "B"] {
            let mut once = CubePuzzle::new(size);
            once.apply_algorithm(&format!("{mv}2")).unwrap();
            let mut twice = CubePuzzle::new(size);
            twice.apply_algorithm(&format!("{mv} {mv}")).unwrap();
            assert_eq!(once.state, twice.state, "{mv} size {size}");
        }
    }
}

#[test]
fn moves_conserve_facelet_counts() {
    let scrambles = [
        (3usize, "U F' U2 F R2 B' U2 L2 R2 F D2 R2 U' B2 U' R B' F' L D2 U"),
        (4, "D2 B2 R2 L B2 D2 R B2 F' L2 D2 R L2 D L' B D L' B2 Rw2 B2 U Rw2 Fw2 Uw2"),
        (6, "Fw2 U' Bw' Lw Uw' B L 3Fw2 Dw' 3Fw2 F R' Uw B2 Rw' B' L' U2 Lw Fw"),
    ];
    for (size, scramble) in scrambles {
        let mut cube = CubePuzzle::new(size);
        cube.apply_algorithm(scramble).unwrap();
        let mut counts = [0usize; 6];
        for face in &cube.state {
            for row in face {
                for &cell in row {
                    counts[cell as usize] += 1;
                }
            }
        }
        for f in 0..6 {
            assert_eq!(counts[f], size * size, "value {f} size {size}");
        }
    }
}

#[test]
fn bad_tokens_are_rejected_and_leave_the_state_alone() {
    let mut cube = CubePuzzle::new(3);
    assert_eq!(
        cube.apply_algorithm("R X U"),
        Err(ScrambleError::InvalidNotationToken)
    );
    assert_eq!(cube.state, solved(3));
    assert_eq!(
        cube.apply_algorithm("2'"),
        Err(ScrambleError::InvalidNotationToken)
    );
    assert_eq!(
        cube.apply_algorithm("0R"),
        Err(ScrambleError::InvalidNotationToken)
    );
    assert_eq!(
        cube.apply_algorithm("rw"),
        Err(ScrambleError::InvalidNotationToken)
    );
    assert_eq!(
        cube.apply_algorithm("R 9F"),
        Err(ScrambleError::DepthOutOfRange)
    );
    assert_eq!(cube.state, solved(3));
    // a byte outside ASCII invalidates the whole token
    assert_eq!(
        cube.apply_algorithm("\u{3b1}R"),
        Err(ScrambleError::InvalidNotationToken)
    );
    assert_eq!(
        cube.apply_algorithm("\u{b2}R"),
        Err(ScrambleError::InvalidNotationToken)
    );
    assert_eq!(cube.state, solved(3));
    // layer numbers up to the cube's order parse, anything past it does not
    assert!(cube.apply_algorithm("3R 3R'").is_ok());
    let mut big = CubePuzzle::new(4);
    assert!(big.apply_algorithm("4R 4R'").is_ok());
    assert_eq!(
        big.apply_algorithm("5R"),
        Err(ScrambleError::DepthOutOfRange)
    );
}

#[test]
fn boundary_layer_moves_no_strips() {
    // the layer at depth size-1 coincides with the opposite face: turning it
    // moves no strips, so on a solved cube it has no visible effect at all
    let mut cube = CubePuzzle::new(3);
    cube.apply_algorithm("3R 3U 3F 3L 3D 3B").unwrap();
    assert_eq!(cube.state, solved(3));
    // an inner slice, by contrast, visibly moves strips
    let mut mid = CubePuzzle::new(3);
    mid.apply_algorithm("2R").unwrap();
    assert_ne!(mid.state, solved(3));
    // a wide move whose deepest layer is the boundary still turns the outer
    // layers: on a 2x2x2, "Rw" acts exactly like "R"
    let mut wide = CubePuzzle::new(2);
    wide.apply_algorithm("Rw").unwrap();
    let mut plain = CubePuzzle::new(2);
    plain.apply_algorithm("R").unwrap();
    assert_eq!(wide.state, plain.state);
}

#[test]
fn notation_defaults_and_modifiers() {
    // a trailing 0 is a no-op turn, 3 is a counter-clockwise quarter turn
    let mut cube = CubePuzzle::new(3);
    cube.apply_algorithm("R0").unwrap();
    assert_eq!(cube.state, solved(3));
    // multi-digit multiplicities count modulo four: 12 turns are none at all
    cube.apply_algorithm("R12").unwrap();
    assert_eq!(cube.state, solved(3));
    // five quarter turns are one
    let mut five = CubePuzzle::new(3);
    five.apply_algorithm("R5").unwrap();
    let mut one = CubePuzzle::new(3);
    one.apply_algorithm("R").unwrap();
    assert_eq!(five.state, one.state);
    let mut a = CubePuzzle::new(3);
    a.apply_algorithm("R3").unwrap();
    let mut b = CubePuzzle::new(3);
    b.apply_algorithm("R'").unwrap();
    assert_eq!(a.state, b.state);
    // lowercase face letters are accepted when not wide
    let mut c = CubePuzzle::new(3);
    c.apply_algorithm("r u f").unwrap();
    let mut d = CubePuzzle::new(3);
    d.apply_algorithm("R U F").unwrap();
    assert_eq!(c.state, d.state);
    // "Rw" defaults to the second layer: on a 3x3x3 it equals "2Rw"
    let mut e = CubePuzzle::new(3);
    e.apply_algorithm("Rw").unwrap();
    let mut f = CubePuzzle::new(3);
    f.apply_algorithm("2Rw").unwrap();
    assert_eq!(e.state, f.state);
}

#[test]
fn event_codes_select_puzzles() {
    assert_eq!(get_cube_size("222"), 2);
    assert_eq!(get_cube_size("333"), 3);
    assert_eq!(get_cube_size("OH"), 3);
    assert_eq!(get_cube_size("3BLD"), 3);
    assert_eq!(get_cube_size("444"), 4);
    assert_eq!(get_cube_size("555"), 5);
    assert_eq!(get_cube_size("666"), 6);
    assert_eq!(get_cube_size("777"), 7);
    assert_eq!(get_cube_size("MEGA"), 0);
    assert_eq!(get_cube_size("nope"), 0);

    let p = new("444").unwrap();
    assert_eq!(p.size, 4);
    assert_eq!(p.state, solved(4));
    assert!(new("whatever").is_none());
}

#[test]
fn colors_render_as_hex() {
    assert_eq!(Color(255, 0, 0).to_string(), "#FF0000");
    assert_eq!(Color(255, 128, 0).to_string(), "#FF8000");
    assert_eq!(Color(0, 0, 0).to_string(), "#000000");
    assert_eq!(Color(1, 10, 100).to_string(), "#010A64");
    assert_eq!(PaletteColor::red().to_string(), "#FF0000");
    assert_eq!(PaletteColor::green().to_string(), "#00FF00");
    assert_eq!(PaletteColor::blue().to_string(), "#0000FF");
    assert_eq!(PaletteColor::white().to_string(), "#FFFFFF");
    assert_eq!(PaletteColor::black().to_string(), "#000000");
    assert_eq!(PaletteColor::yellow().to_string(), "#FFFF00");
    assert_eq!(PaletteColor::orange().to_string(), "#FF8000");
    assert_eq!(PaletteColor::grey().to_string(), "#808080");
    assert_eq!(PaletteColor::new(18, 52, 86).to_string(), "#123456");
}

#[test]
fn elements_render_their_attributes_in_order() {
    let mut rect = Element {
        name: String::new(),
        attributes: Vec::new(),
    };
    rect.rectangle(4, 26, 10, 10);
    rect.set_fill(Color(255, 0, 0));
    rect.set_stroke(Color(0, 0, 0));
    assert_eq!(
        rect.to_string(),
        "<rect x=\"4\" y=\"26\" width=\"10\" height=\"10\" fill=\"#FF0000\" stroke=\"#000000\"/>"
    );
    // setting an existing key keeps its place and replaces the value
    rect.set_attribute("x".to_string(), "7".to_string());
    assert_eq!(
        rect.to_string(),
        "<rect x=\"7\" y=\"26\" width=\"10\" height=\"10\" fill=\"#FF0000\" stroke=\"#000000\"/>"
    );
}

#[test]
fn svg_documents_render_whole() {
    let mut svg = Svg {
        name: String::new(),
        attributes: Vec::new(),
        children: Vec::new(),
    };
    svg.init(Dimension {
        width: 128,
        height: 96,
    });
    let mut rect = Element {
        name: String::new(),
        attributes: Vec::new(),
    };
    rect.rectangle(0, 0, 10, 10);
    svg.append_child(rect);
    assert_eq!(
        svg.to_string(),
        "<svg width=\"100%\" height=\"100%\" viewBox=\"0 0 128 96\" version=\"1.1\" \
         xmlns=\"http://www.w3.org/2000/svg\">\
         <g transform=\"matrix(1.0,0.0,0.0,1.0,0.5,0.5)\">\
         <rect x=\"0\" y=\"0\" width=\"10\" height=\"10\"/>\
         </g></svg>"
    );
}

#[test]
fn drawing_paints_one_rectangle_per_facelet() {
    let cube = CubePuzzle::new(2);
    let svg = cube.draw();
    let text = svg.to_string();
    assert_eq!(text.matches("<rect").count(), 24);
    assert!(text.starts_with("<svg "));
    assert!(text.ends_with("</svg>"));
    assert!(text.contains("viewBox=\"0 0 90 68\""));
    // the first painted face is L, solid orange on a fresh cube
    assert_eq!(text.matches("fill=\"#FF8000\"").count(), 4);
}

#[test]
fn custom_schemes_fall_back_to_black() {
    let mut scheme = ColorScheme::empty();
    scheme.set(Face::U, Color(1, 2, 3));
    let cube = CubePuzzle::new(2);
    let mut svg = Svg {
        name: String::new(),
        attributes: Vec::new(),
        children: Vec::new(),
    };
    cube.draw_cube(&mut svg, &scheme);
    let text = svg.to_string();
    // four facelets of U get the custom colour, the twenty others are black
    assert_eq!(text.matches("fill=\"#010203\"").count(), 4);
    assert_eq!(text.matches("fill=\"#000000\"").count(), 20);

    let deflt = default_color_scheme();
    assert_eq!(deflt.get(Face::R), Some(Color(255, 0, 0)));
    assert_eq!(deflt.get(Face::B), Some(Color(0, 0, 255)));
}
