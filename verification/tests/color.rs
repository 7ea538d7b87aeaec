use piet_tools::color::{Color, Command, Hue, Lightness};

const HUES: [Hue; 6] = [Hue::Red, Hue::Yellow, Hue::Green, Hue::Cyan, Hue::Blue, Hue::Magenta];
const LIGHTS: [Lightness; 3] = [Lightness::Light, Lightness::Normal, Lightness::Dark];

fn program_colors() -> Vec<Color> {
    let mut out = Vec::new();
    for h in HUES {
        for l in LIGHTS {
            out.push(Color::Color(h, l));
        }
    }
    out
}

fn all_commands() -> Vec<Command> {
    (0..18).map(|i| Command::from_index(i).unwrap()).collect()
}

#[test]
fn step_gives_back_the_command_of_the_next_color() {
    for p in program_colors() {
        for op in all_commands() {
            assert_eq!(p.step_to(p.next_for_command(op)), op);
        }
    }
}

#[test]
fn next_gives_back_the_color_of_the_step() {
    for p in program_colors() {
        for q in program_colors() {
            assert_eq!(p.next_for_command(p.step_to(q)), q);
        }
    }
}

#[test]
fn red_to_dark_red_is_one_step_darker() {
    let red = Color::Color(Hue::Red, Lightness::Normal);
    let dark_red = Color::Color(Hue::Red, Lightness::Dark);
    let light_red = Color::Color(Hue::Red, Lightness::Light);
    assert_eq!(red.step_to(dark_red), Command::Push);
    assert_eq!(Command::Push.to_index(), 1);
    // two steps darker, which comes round to lighter, is the pop
    assert_eq!(red.step_to(light_red), Command::Pop);
    assert_eq!(Command::Pop.to_index(), 2);
}

#[test]
fn steps_are_numbered_by_lightness_then_hue() {
    let red = Color::Color(Hue::Red, Lightness::Normal);
    assert_eq!(red.step_to(red), Command::Noop);
    assert_eq!(red.step_to(Color::Color(Hue::Red, Lightness::Dark)), Command::Push);
    assert_eq!(red.step_to(Color::Color(Hue::Yellow, Lightness::Normal)), Command::Add);
    assert_eq!(red.step_to(Color::Color(Hue::Magenta, Lightness::Light)), Command::OutChar);
    assert_eq!(
        Color::Color(Hue::Magenta, Lightness::Dark).step_to(Color::Color(Hue::Red, Lightness::Light)),
        Command::Subtract
    );
}

#[test]
fn white_steps_are_noops() {
    let red = Color::Color(Hue::Red, Lightness::Normal);
    assert_eq!(red.step_to(Color::White), Command::Noop);
    assert_eq!(Color::White.step_to(red), Command::Noop);
    assert_eq!(Color::White.step_to(Color::White), Command::Noop);
}

#[test]
fn commands_are_numbered() {
    let names = [
        Command::Noop,
        Command::Push,
        Command::Pop,
        Command::Add,
        Command::Subtract,
        Command::Multiply,
        Command::Divide,
        Command::Mod,
        Command::Not,
        Command::Greater,
        Command::Pointer,
        Command::Switch,
        Command::Duplicate,
        Command::Roll,
        Command::InNum,
        Command::InChar,
        Command::OutNum,
        Command::OutChar,
    ];
    for (i, c) in names.iter().enumerate() {
        assert_eq!(c.to_index() as usize, i);
        assert_eq!(Command::from_index(i as u8), Some(*c));
    }
    assert_eq!(Command::from_index(18), None);
    assert_eq!(Hue::from_index(7), Hue::Yellow);
    assert_eq!(Lightness::from_index(5), Lightness::Dark);
    assert_eq!(Hue::Blue.to_index(), 4);
    assert_eq!(Lightness::Normal.to_index(), 1);
}

#[test]
fn palette_goes_there_and_back() {
    let mut colors = program_colors();
    colors.push(Color::White);
    colors.push(Color::Black);
    assert_eq!(colors.len(), 20);
    for c in colors {
        assert!(c.is_program_color() || c == Color::White || c == Color::Black);
        let (r, g, b) = c.to_rgb().unwrap();
        assert_eq!(Color::from_rgb(r, g, b), c);
    }
    assert_eq!(Color::Other.to_rgb(), None);
}

#[test]
fn palette_codes_are_as_listed() {
    assert_eq!(Color::White.to_rgb(), Some((0xFF, 0xFF, 0xFF)));
    assert_eq!(Color::Black.to_rgb(), Some((0x00, 0x00, 0x00)));
    assert_eq!(Color::Color(Hue::Red, Lightness::Light).to_rgb(), Some((0xFF, 0xC0, 0xC0)));
    assert_eq!(Color::Color(Hue::Yellow, Lightness::Dark).to_rgb(), Some((0xC0, 0xC0, 0x00)));
    assert_eq!(Color::Color(Hue::Cyan, Lightness::Normal).to_rgb(), Some((0x00, 0xFF, 0xFF)));
    assert_eq!(Color::Color(Hue::Magenta, Lightness::Dark).to_rgb(), Some((0xC0, 0x00, 0xC0)));
    assert_eq!(Color::from_rgb(0x00, 0x00, 0xC0), Color::Color(Hue::Blue, Lightness::Dark));
    assert_eq!(Color::from_rgb(0xC0, 0xFF, 0xC0), Color::Color(Hue::Green, Lightness::Light));
}

#[test]
fn any_other_code_is_other() {
    let mut known = 0;
    for r in [0x00u8, 0x01, 0x73, 0xC0, 0xFE, 0xFF] {
        for g in [0x00u8, 0x26, 0xC0, 0xFF] {
            for b in [0x00u8, 0xB1, 0xC0, 0xFF] {
                let c = Color::from_rgb(r, g, b);
                if c == Color::Other {
                    continue;
                }
                known += 1;
                assert_eq!(c.to_rgb(), Some((r, g, b)));
            }
        }
    }
    assert_eq!(known, 20);
    assert_eq!(Color::from_rgb(0x73, 0x26, 0xB1), Color::Other);
    assert_eq!(Color::from_rgb(0xC0, 0xC0, 0xC0), Color::Other);
}

#[test]
fn pixels_that_are_not_opaque_are_other() {
    assert_eq!(Color::from_rgba(0xFF, 0x00, 0x00, 0xFF), Color::Color(Hue::Red, Lightness::Normal));
    assert_eq!(Color::from_rgba(0xFF, 0x00, 0x00, 0xFE), Color::Other);
    assert_eq!(Color::from_rgba(0x12, 0x34, 0x56, 0xFF), Color::Other);
}
