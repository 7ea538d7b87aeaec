use piet_tools::args::parse_codel_size;
use piet_tools::color::{Color, Hue, Lightness};
use piet_tools::grid::PietCode;
use piet_tools::pixels::{to_codels, to_image, GetAllEqualIterator, PixelImage, OTHER_COLOR};

const RED: (u8, u8, u8) = (0xFF, 0x00, 0x00);
const WHITE: (u8, u8, u8) = (0xFF, 0xFF, 0xFF);
const BLACK: (u8, u8, u8) = (0x00, 0x00, 0x00);
const GREY: (u8, u8, u8) = (0x80, 0x80, 0x80);

#[test]
fn all_equal_needs_a_value_and_no_other() {
    assert_eq!(Vec::<(u8, u8, u8)>::new().get_all_equal(), None);
    assert_eq!(vec![RED].get_all_equal(), Some(RED));
    assert_eq!(vec![RED, RED, RED].get_all_equal(), Some(RED));
    assert_eq!(vec![RED, RED, WHITE].get_all_equal(), None);
    assert_eq!(vec![WHITE, RED, RED].get_all_equal(), None);
}

#[test]
fn codels_are_read_from_blocks() {
    // two by one codels of two by two pixels
    let img = PixelImage {
        width: 4,
        height: 2,
        pixels: vec![RED, RED, WHITE, WHITE, RED, RED, WHITE, WHITE],
    };
    let code = to_codels(&img, 2).unwrap();
    assert_eq!(code.width(), 2);
    assert_eq!(code.height(), 1);
    assert_eq!(code.at(0, 0), Some(Color::Color(Hue::Red, Lightness::Normal)));
    assert_eq!(code.at(1, 0), Some(Color::White));
}

#[test]
fn blocks_of_mixed_or_unknown_pixels_are_other() {
    let img = PixelImage {
        width: 4,
        height: 2,
        pixels: vec![RED, RED, GREY, GREY, RED, BLACK, GREY, GREY],
    };
    let code = to_codels(&img, 2).unwrap();
    assert_eq!(code.at(0, 0), Some(Color::Other));
    assert_eq!(code.at(1, 0), Some(Color::Other));
    let code = to_codels(&img, 1).unwrap();
    assert_eq!(code.width(), 4);
    assert_eq!(code.height(), 2);
    assert_eq!(code.at(1, 1), Some(Color::Black));
    assert_eq!(code.at(2, 1), Some(Color::Other));
}

#[test]
fn sides_must_be_multiples_of_the_codel_size() {
    let img = PixelImage { width: 3, height: 2, pixels: vec![RED; 6] };
    assert_eq!(to_codels(&img, 2).unwrap_err(), "invalid dimensions");
    let img = PixelImage { width: 2, height: 3, pixels: vec![RED; 6] };
    assert_eq!(to_codels(&img, 2).unwrap_err(), "invalid dimensions");
    assert!(to_codels(&img, 1).is_ok());
}

#[test]
fn codels_are_written_as_blocks() {
    let code = PietCode::from_codels(
        2,
        2,
        vec![Color::Color(Hue::Red, Lightness::Normal), Color::White, Color::Other, Color::Black],
    )
    .unwrap();
    let img = to_image(&code, 2);
    assert_eq!(img.width, 4);
    assert_eq!(img.height, 4);
    let o = OTHER_COLOR;
    assert_eq!(
        img.pixels,
        vec![
            RED, RED, WHITE, WHITE, //
            RED, RED, WHITE, WHITE, //
            o, o, BLACK, BLACK, //
            o, o, BLACK, BLACK,
        ]
    );
    assert_eq!(img.get(2, 3), BLACK);
    assert_eq!(Color::from_rgb(o.0, o.1, o.2), Color::Other);
}

#[test]
fn written_and_read_again_is_the_same() {
    let colors = vec![
        Color::Color(Hue::Red, Lightness::Normal),
        Color::Color(Hue::Cyan, Lightness::Dark),
        Color::White,
        Color::Black,
        Color::Other,
        Color::Color(Hue::Magenta, Lightness::Light),
    ];
    let code = PietCode::from_codels(3, 2, colors.clone()).unwrap();
    for k in [1u32, 2, 5] {
        let img = to_image(&code, k);
        let back = to_codels(&img, k).unwrap();
        assert_eq!(back.width(), 3);
        assert_eq!(back.height(), 2);
        let read: Vec<Color> = back.codels().into_iter().map(|(_, _, c)| c).collect();
        assert_eq!(read, colors);
    }
}

#[test]
fn an_image_of_no_size() {
    let code = PietCode::from_codels(2, 1, vec![Color::White, Color::Black]).unwrap();
    let img = to_image(&code, 0);
    assert_eq!((img.width, img.height), (0, 0));
    assert!(img.pixels.is_empty());
}

#[test]
fn codel_sizes() {
    assert_eq!(parse_codel_size("1"), Ok(1));
    assert_eq!(parse_codel_size("+12"), Ok(12));
    assert_eq!(parse_codel_size("007"), Ok(7));
    assert_eq!(parse_codel_size("4294967295"), Ok(u32::MAX));
    let not_integer = Err("codel-size must be an integer".to_string());
    assert_eq!(parse_codel_size("4294967296"), not_integer);
    assert_eq!(parse_codel_size("99999999999999999999999"), not_integer);
    assert_eq!(parse_codel_size(""), not_integer);
    assert_eq!(parse_codel_size("+"), not_integer);
    assert_eq!(parse_codel_size("-1"), not_integer);
    assert_eq!(parse_codel_size("1 "), not_integer);
    assert_eq!(parse_codel_size("x"), not_integer);
    assert_eq!(parse_codel_size("1.5"), not_integer);
    let zero = Err("codel-size must be non-zero".to_string());
    assert_eq!(parse_codel_size("0"), zero);
    assert_eq!(parse_codel_size("+000"), zero);
}
