use contest_lib::input::Scanner;
use contest_lib::option_ext::OptionExt;
use contest_lib::vec2::Vec2;

#[test]
fn scanner_hands_out_the_words_of_a_line_in_order() {
    let mut scanner = Scanner::new();
    assert_eq!(scanner.next(), None);
    scanner.refill("  12 ab\t-7\u{3000}x\u{a0}y \n");
    assert_eq!(scanner.next().as_deref(), Some("12"));
    assert_eq!(scanner.next().as_deref(), Some("ab"));
    assert_eq!(scanner.next().as_deref(), Some("-7"));
    assert_eq!(scanner.next().as_deref(), Some("x"));
    assert_eq!(scanner.next().as_deref(), Some("y"));
    assert_eq!(scanner.next(), None);
    scanner.refill(" \t\n");
    assert_eq!(scanner.next(), None);
    scanner.refill("a b");
    scanner.refill("c");
    assert_eq!(scanner.next().as_deref(), Some("c"));
    assert_eq!(scanner.next(), None);
}

#[test]
fn option_keeps_the_least_and_the_greatest() {
    let mut least: Option<i32> = None;
    let mut greatest: Option<i32> = None;
    for x in [5, 7, 3, 3, 9, -2, 4] {
        OptionExt::update_min(&mut least, x);
        OptionExt::update_max(&mut greatest, x);
    }
    assert_eq!(least, Some(-2));
    assert_eq!(greatest, Some(9));
    let mut first: Option<(i32, char)> = Some((1, 'a'));
    OptionExt::update_min(&mut first, (1, 'a'));
    assert_eq!(first, Some((1, 'a')));
}

#[test]
fn grid_cells_are_stored_row_by_row() {
    let mut grid = Vec2::<u32>::new((2, 3));
    for row in 0..2 {
        for col in 0..3 {
            assert_eq!(grid.get((row, col)), Some(&0));
        }
    }
    assert_eq!(grid.get((2, 0)), None);
    assert_eq!(grid.get((0, 3)), None);
    assert_eq!(grid.get_mut((2, 2)), None);
    *grid.get_mut((1, 0)).unwrap() = 7;
    *grid.index_mut((0, 2)) = 9;
    assert_eq!(grid.index((1, 0)), &7);
    assert_eq!(grid.index((0, 2)), &9);
    assert_eq!(grid.index((0, 0)), &0);
    assert_eq!(grid.index((1, 2)), &0);
    let empty = Vec2::<u8>::new((0, 5));
    assert_eq!(empty.get((0, 0)), None);
    assert_eq!(grid.clone(), grid);
}

#[test]
fn scanner_splits_at_every_white_space_character_and_at_no_other() {
    let white: Vec<u32> = (0x09..=0x0D)
        .chain([0x20, 0x85, 0xA0, 0x1680])
        .chain(0x2000..=0x200A)
        .chain([0x2028, 0x2029, 0x202F, 0x205F, 0x3000])
        .collect();
    assert_eq!(white.len(), 25);
    let mut scanner = Scanner::new();
    for &code in &white {
        let c = char::from_u32(code).unwrap();
        scanner.refill(&format!("left{c}right"));
        assert_eq!(scanner.next().as_deref(), Some("left"), "U+{code:04X}");
        assert_eq!(scanner.next().as_deref(), Some("right"), "U+{code:04X}");
        assert_eq!(scanner.next(), None);
    }
    let not_white = [
        0x08, 0x0E, 0x1F, 0x21, 0x84, 0x86, 0x9F, 0xA1, 0x167F, 0x1681, 0x180E, 0x1FFF, 0x200B,
        0x2027, 0x202A, 0x202E, 0x2030, 0x205E, 0x2060, 0x2FFF, 0x3001, 0xFEFF,
    ];
    for &code in &not_white {
        let c = char::from_u32(code).unwrap();
        let line = format!("left{c}right");
        scanner.refill(&line);
        assert_eq!(scanner.next().as_deref(), Some(line.as_str()), "U+{code:04X}");
        assert_eq!(scanner.next(), None);
    }
}
