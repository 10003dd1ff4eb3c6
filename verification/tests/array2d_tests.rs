use maze_game::array2d::Array2D;
use maze_game::array2d::CharRepresentation;
use maze_game::array2d::find_height;
use maze_game::array2d::find_width;

#[test]
fn testy_yeah() {
    let mut moo = Array2D::new(10, 5, 'a');

    let mut count: u8 = 'a' as u8;

    for y in 0..5 {
        for x in 0..10 {
            moo.set((x, y), count as char);
            count += 1;
        }
    }

    for ((x, y), c) in moo.iter_rows_first_enumerated() {
        println!("x: {}, y: {}, c: {}", x, y, c);
    }

    println!("moo: {}", moo.to_string());
}

#[test]
fn test_2d_arr() {
    let mut arr = Array2D::new(10, 4, '|');

    let to_test = [
        ((0, 0), 'a'),
        ((1, 0), 'b'),
        ((0, 1), 'c'),
        ((1, 1), 'd'),
        //
        ((8, 2), 'e'),
        ((9, 2), 'f'),
        ((8, 3), 'g'),
        ((9, 3), 'h'),
    ];

    for (coord, v) in to_test {
        arr.set(coord, v);
        assert_eq!(arr.get(coord), &v);
    }

    assert_eq!(
        arr.to_string(),
        "\
        ab||||||||\n\
        cd||||||||\n\
        ||||||||ef\n\
        ||||||||gh\n"
    );

    let arr2: Array2D<char> = Array2D::from(arr.to_string());

    println!("arr2: {}", arr2.to_string());

    assert_eq!(arr.to_string(), arr2.to_string());

    assert_eq!(arr, arr2);
}

#[test]
fn test_new_fills_every_cell() {
    let arr = Array2D::new(3, 2, 'z');
    assert_eq!(arr.width(), 3);
    assert_eq!(arr.height(), 2);
    for y in 0..2 {
        for x in 0..3 {
            assert_eq!(arr.get((x, y)), &'z');
        }
    }
}

#[test]
fn test_set_changes_only_its_cell() {
    let mut arr = Array2D::new(4, 4, '.');
    arr.set((2, 1), '#');
    for y in 0..4 {
        for x in 0..4 {
            let expected = if (x, y) == (2, 1) { '#' } else { '.' };
            assert_eq!(*arr.get((x, y)), expected);
        }
    }
}

#[test]
fn test_get_index_row_major() {
    let arr = Array2D::new(7, 3, 'x');
    assert_eq!(arr.get_index((0, 0)), 0);
    assert_eq!(arr.get_index((6, 0)), 6);
    assert_eq!(arr.get_index((0, 1)), 7);
    assert_eq!(arr.get_index((3, 2)), 17);
}

#[test]
fn test_iter_data_row_major_order() {
    let mut arr = Array2D::new(2, 2, '0');
    arr.set((0, 0), 'a');
    arr.set((1, 0), 'b');
    arr.set((0, 1), 'c');
    arr.set((1, 1), 'd');
    assert_eq!(arr.iter_data(), vec!['a', 'b', 'c', 'd']);
}

#[test]
fn test_iter_orders() {
    let mut arr = Array2D::new(2, 2, '0');
    arr.set((0, 0), 'a');
    arr.set((1, 0), 'b');
    arr.set((0, 1), 'c');
    arr.set((1, 1), 'd');

    let rows_first = arr.iter_rows_first_enumerated();
    assert_eq!(
        rows_first,
        vec![((0, 0), 'a'), ((1, 0), 'b'), ((0, 1), 'c'), ((1, 1), 'd')]
    );

    let cols_first = arr.iter_cols_first_enumerated();
    assert_eq!(
        cols_first,
        vec![((0, 0), 'a'), ((0, 1), 'c'), ((1, 0), 'b'), ((1, 1), 'd')]
    );
}

#[test]
fn test_find_width_and_height() {
    assert_eq!(find_width("abc\ndef\n"), 3);
    assert_eq!(find_height("abc\ndef\n"), 2);
    // a missing final newline still closes the last line
    assert_eq!(find_height("abc\ndef"), 2);
    // blank lines are skipped
    assert_eq!(find_height("abc\n\ndef\n"), 2);
    assert_eq!(find_width("\nabc\n"), 0);
}

#[test]
fn test_from_skips_blank_lines() {
    let arr: Array2D<char> = Array2D::from(String::from("ab\n\ncd\n"));
    assert_eq!(arr.width(), 2);
    assert_eq!(arr.height(), 2);
    assert_eq!(*arr.get((0, 0)), 'a');
    assert_eq!(*arr.get((1, 0)), 'b');
    assert_eq!(*arr.get((0, 1)), 'c');
    assert_eq!(*arr.get((1, 1)), 'd');
}

#[test]
fn test_char_representation() {
    assert_eq!('q'.char_representation(), 'q');
    let n: usize = 407;
    assert_eq!(n.char_representation(), '4');
    let small: usize = 8;
    assert_eq!(small.char_representation(), '8');
}

#[test]
fn test_not_equal_on_different_cell() {
    let a = Array2D::new(2, 2, 'x');
    let mut b = Array2D::new(2, 2, 'x');
    assert_eq!(a, b);
    b.set((1, 1), 'y');
    assert_ne!(a, b);
    let c = Array2D::new(2, 3, 'x');
    assert_ne!(a, c);
}
