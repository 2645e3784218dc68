use sixel::rle::push_run_length;
use sixel::{push_decimal, Sixel, SixelColor, ESC};

fn encode(img: &Sixel) -> String {
    let mut out = Vec::new();
    img.print(&mut out);
    String::from_utf8(out).unwrap()
}

fn filled(width: usize, height: usize, color: u16) -> Sixel {
    let mut img = Sixel::new(width, height).unwrap();
    for y in 0..height {
        for x in 0..width {
            img.set(x, y, color);
        }
    }
    img
}

#[test]
fn construction_accepts_heights_divisible_by_six() {
    for &(w, h) in &[(1usize, 6usize), (4, 12), (7, 18), (0, 6)] {
        let img = Sixel::new(w, h).expect("height is a multiple of six");
        for y in 0..h {
            for x in 0..w {
                assert_eq!(img.get(x, y), 0);
            }
        }
    }
}

#[test]
fn construction_rejects_other_heights() {
    for &(w, h) in &[(1usize, 1usize), (4, 5), (7, 7), (3, 13), (0, 3), (3, 0), (0, 0)] {
        assert!(Sixel::new(w, h).is_none());
    }
}

#[test]
fn get_returns_what_set_stored() {
    let mut img = Sixel::new(5, 12).unwrap();
    img.set(4, 11, 65535);
    img.set(0, 0, 9);
    img.set(2, 7, 300);
    assert_eq!(img.get(4, 11), 65535);
    assert_eq!(img.get(0, 0), 9);
    assert_eq!(img.get(2, 7), 300);
    assert_eq!(img.get(1, 0), 0);
    assert_eq!(img.get(4, 10), 0);
    img.set(2, 7, 1);
    assert_eq!(img.get(2, 7), 1);
}

#[test]
fn strip_colors_in_first_seen_order() {
    let rows = [[1u16, 2], [2, 1], [1, 1], [3, 3], [1, 1], [1, 1]];
    let mut img = Sixel::new(2, 6).unwrap();
    for (y, row) in rows.iter().enumerate() {
        for (x, &c) in row.iter().enumerate() {
            img.set(x, y, c);
        }
    }
    assert_eq!(img.row_colors(0), vec![1, 2, 3]);
}

#[test]
fn strip_colors_per_strip() {
    let mut img = Sixel::new(3, 12).unwrap();
    img.set(2, 0, 8);
    img.set(1, 5, 4);
    img.set(0, 6, 4);
    img.set(2, 11, 8);
    assert_eq!(img.row_colors(0), vec![0, 8, 4]);
    assert_eq!(img.row_colors(1), vec![4, 0, 8]);
}

#[test]
fn run_of_two_is_two_literal_bytes() {
    assert_eq!(encode(&filled(2, 6, 0)), "#0~~$-");
    let mut out = Vec::new();
    push_run_length(&mut out, &vec![63, 63, 64]);
    assert_eq!(out, b"??@".to_vec());
}

#[test]
fn run_of_three_is_a_repeat_token() {
    assert_eq!(encode(&filled(3, 6, 0)), "#0!3~$-");
    let mut out = Vec::new();
    push_run_length(&mut out, &vec![63, 63, 63, 64]);
    assert_eq!(out, b"!3?@".to_vec());
}

#[test]
fn long_runs_and_mixed_runs() {
    assert_eq!(encode(&filled(10, 6, 2)), "#2!10~$-");
    let mut out = vec![b'x'];
    push_run_length(&mut out, &vec![70, 70, 70, 70, 71, 72, 72, 73, 73, 73]);
    assert_eq!(out, b"x!4FGHH!3I".to_vec());
    let mut empty = Vec::new();
    push_run_length(&mut empty, &Vec::new());
    assert!(empty.is_empty());
}

#[test]
fn single_column_filled_with_five() {
    assert_eq!(encode(&filled(1, 6, 5)), "#5~$-");
}

#[test]
fn encoding_twice_gives_identical_bytes() {
    let mut img = Sixel::new(7, 12).unwrap();
    for y in 0..12 {
        for x in 0..7 {
            img.set(x, y, ((x * 3 + y) % 4) as u16);
        }
    }
    let mut first = Vec::new();
    let mut second = Vec::new();
    img.print(&mut first);
    img.print(&mut second);
    assert_eq!(first, second);
    assert!(!first.is_empty());
}

#[test]
fn half_row_colors_in_discovery_order() {
    let mut img = Sixel::new(4, 6).unwrap();
    for y in 0..6 {
        for x in 0..4 {
            img.set(x, y, if x < 2 { 7 } else { 2 });
        }
    }
    assert_eq!(encode(&img), "#7~~??$#2??~~$-");

    let mut img = Sixel::new(3, 6).unwrap();
    for y in 0..6 {
        for x in 0..3 {
            img.set(x, y, if y < 3 { 1 } else { 4 });
        }
    }
    assert_eq!(encode(&img), "#1!3F$#4!3w$-");
}

#[test]
fn every_strip_is_encoded_in_order() {
    let mut img = Sixel::new(1, 12).unwrap();
    for y in 6..12 {
        img.set(0, y, 2);
    }
    img.set(0, 0, 1);
    assert_eq!(encode(&img), "#1@$#0}$-#2~$-");
}

#[test]
fn empty_images() {
    assert_eq!(encode(&Sixel::new(0, 12).unwrap()), "--");
    assert!(Sixel::new(4, 0).is_none());
}

#[test]
fn print_appends_to_what_the_sink_holds() {
    let mut out = b"ab".to_vec();
    filled(1, 6, 5).print(&mut out);
    assert_eq!(out, b"ab#5~$-".to_vec());
}

#[test]
fn mode_sequences() {
    let mut out = Vec::new();
    Sixel::init(&mut out);
    assert_eq!(out, vec![ESC, b'P', b'q']);
    let mut out = Vec::new();
    Sixel::deinit(&mut out);
    assert_eq!(out, vec![0x1b, b'\\']);
}

#[test]
fn color_definitions() {
    let mut out = Vec::new();
    Sixel::init_color(&mut out, 3, SixelColor::Rgb(10, 20, 30));
    assert_eq!(out, b"#3;2;10;20;30".to_vec());
    let mut out = Vec::new();
    Sixel::init_color(&mut out, 65535, SixelColor::Hls(360, 0, 100));
    assert_eq!(out, b"#65535;1;360;0;100".to_vec());
}

#[test]
fn hls_palette_matches_scaled_hue() {
    let mut out = Vec::new();
    Sixel::hls(&mut out);
    let mut expected = String::new();
    for i in 0..360 {
        let col = (i as f64 / 360. * 100.) as i32;
        expected.push_str(&format!("#{};1;{};50;100", i, col));
    }
    assert_eq!(String::from_utf8(out).unwrap(), expected);
}

#[test]
fn decimal_digits() {
    for &n in &[0u64, 7, 10, 99, 100, 65535, u64::MAX] {
        let mut out = Vec::new();
        push_decimal(&mut out, n);
        assert_eq!(String::from_utf8(out).unwrap(), n.to_string());
    }
}
