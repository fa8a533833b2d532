use biscuiting_lib::{BiscuitFinder, FinderError, RandomSource};

/// Replays a fixed list of draws, over and over.
struct Script {
    draws: Vec<u32>,
    next: usize,
}

impl Script {
    fn new(draws: Vec<u32>) -> Script {
        Script { draws, next: 0 }
    }
}

impl RandomSource for Script {
    fn next_u32(&mut self) -> u32 {
        let draw = self.draws[self.next % self.draws.len()];
        self.next += 1;
        draw
    }
}

/// Counts upwards in large steps, so that neighbouring colours differ.
struct Stepper {
    state: u32,
}

impl RandomSource for Stepper {
    fn next_u32(&mut self) -> u32 {
        self.state = self.state.wrapping_mul(1664525).wrapping_add(1013904223);
        self.state
    }
}

const WHITE: [u8; 4] = [255, 255, 255, 255];
const BLACK: [u8; 4] = [0, 0, 0, 255];

/// An RGBA buffer with `BLACK` where the picture has `#` and `WHITE` elsewhere.
fn picture(rows: &[&str]) -> (u32, u32, Vec<u8>) {
    let height = rows.len() as u32;
    let width = rows[0].len() as u32;
    let mut bytes = Vec::new();
    for row in rows {
        assert_eq!(row.len() as u32, width);
        for cell in row.chars() {
            bytes.extend_from_slice(if cell == '#' { &BLACK } else { &WHITE });
        }
    }
    (width, height, bytes)
}

fn pixel(output: &[u8], index: usize) -> [u8; 4] {
    [output[4 * index], output[4 * index + 1], output[4 * index + 2], output[4 * index + 3]]
}

/// The colour that three draws give: each draw scaled to 1..=255.
fn color_of(red: u32, green: u32, blue: u32) -> [u8; 4] {
    let scale = |raw: u32| (1 + ((raw as u64 * 255) >> 32)) as u8;
    [scale(red), scale(green), scale(blue), 255]
}

#[test]
fn all_background_image_is_all_transparent() {
    let mut finder = BiscuitFinder::new(Script::new(vec![7]));
    let (width, height, bytes) = picture(&["...", "...", "..."]);
    let result = finder.find_biscuits(width, height, bytes);
    assert_eq!(result, Ok(String::from("processed image")));
    let output = finder.output().unwrap();
    assert_eq!(output, &vec![0u8; 36]);
}

#[test]
fn single_center_pixel_gets_the_first_color() {
    // Draws 0, 1, 2 colour label 1 of the default table.
    let draws = vec![0x4000_0000, 0x8000_0000, 0xc000_0000];
    let mut finder = BiscuitFinder::new(Script::new(draws));
    let (width, height, bytes) = picture(&["...", ".#.", "..."]);
    assert_eq!(finder.find_biscuits(width, height, bytes), Ok(String::from("processed image")));
    let output = finder.output().unwrap();
    assert_eq!(output.len(), 36);
    for index in 0..9 {
        if index == 4 {
            assert_eq!(pixel(output, index), [64, 128, 192, 255]);
            assert_eq!(pixel(output, index), color_of(0x4000_0000, 0x8000_0000, 0xc000_0000));
        } else {
            assert_eq!(pixel(output, index), [0, 0, 0, 0]);
        }
    }
}

#[test]
fn diagonal_neighbours_get_two_colors() {
    let mut finder = BiscuitFinder::new(Stepper { state: 1 });
    let (width, height, bytes) = picture(&["#..", ".#.", "..."]);
    assert!(finder.find_biscuits(width, height, bytes).is_ok());
    let colors = finder.colors().colors().clone();
    let output = finder.output().unwrap();
    assert_eq!(pixel(output, 0), [colors[1].r, colors[1].g, colors[1].b, colors[1].a]);
    assert_eq!(pixel(output, 4), [colors[2].r, colors[2].g, colors[2].b, colors[2].a]);
    assert_ne!(pixel(output, 0), pixel(output, 4));
    for index in [1, 2, 3, 5, 6, 7, 8] {
        assert_eq!(pixel(output, index), [0, 0, 0, 0]);
    }
}

#[test]
fn l_shape_gets_one_color() {
    let mut finder = BiscuitFinder::new(Stepper { state: 5 });
    let (width, height, bytes) = picture(&["#..", "#..", "##."]);
    assert!(finder.find_biscuits(width, height, bytes).is_ok());
    let colors = finder.colors().colors().clone();
    let first = [colors[1].r, colors[1].g, colors[1].b, colors[1].a];
    let output = finder.output().unwrap();
    for index in [0, 3, 6, 7] {
        assert_eq!(pixel(output, index), first);
    }
    for index in [1, 2, 4, 5, 8] {
        assert_eq!(pixel(output, index), [0, 0, 0, 0]);
    }
}

#[test]
fn output_before_processing_fails() {
    let finder = BiscuitFinder::new(Script::new(vec![1, 2, 3]));
    assert_eq!(finder.output(), Err(FinderError::NoOutputAvailable));
}

#[test]
fn output_after_failed_first_call_still_fails() {
    let mut finder = BiscuitFinder::new(Script::new(vec![1, 2, 3]));
    assert_eq!(finder.find_biscuits(2, 2, vec![255; 15]), Err(FinderError::DimensionMismatch));
    assert_eq!(finder.output(), Err(FinderError::NoOutputAvailable));
}

#[test]
fn wrong_length_fails_and_keeps_previous_output() {
    let mut finder = BiscuitFinder::new(Stepper { state: 9 });
    let (width, height, bytes) = picture(&["##.", "...", "..#"]);
    assert!(finder.find_biscuits(width, height, bytes.clone()).is_ok());
    let before = finder.output().unwrap().clone();
    let table_before = finder.colors().colors().clone();

    let mut short = bytes.clone();
    short.pop();
    assert_eq!(finder.find_biscuits(width, height, short), Err(FinderError::DimensionMismatch));
    let mut long = bytes.clone();
    long.extend_from_slice(&WHITE);
    assert_eq!(finder.find_biscuits(width, height, long), Err(FinderError::DimensionMismatch));
    assert_eq!(finder.find_biscuits(4, 3, bytes), Err(FinderError::DimensionMismatch));

    assert_eq!(finder.output().unwrap(), &before);
    assert_eq!(finder.colors().colors(), &table_before);
}

#[test]
fn next_image_replaces_the_output() {
    let mut finder = BiscuitFinder::new(Stepper { state: 3 });
    let (width, height, bytes) = picture(&["#.#"]);
    assert!(finder.find_biscuits(width, height, bytes).is_ok());
    assert_eq!(finder.output().unwrap().len(), 12);
    let (width, height, bytes) = picture(&["..", ".."]);
    assert!(finder.find_biscuits(width, height, bytes).is_ok());
    assert_eq!(finder.output().unwrap(), &vec![0u8; 16]);
}

#[test]
fn colors_stay_the_same_while_the_table_is_large_enough() {
    let mut finder = BiscuitFinder::new(Stepper { state: 11 });
    let table = finder.colors().colors().clone();
    assert_eq!(table.len(), 100);
    let (width, height, bytes) = picture(&["#.#.#", ".....", "#.#.#"]);
    assert!(finder.find_biscuits(width, height, bytes.clone()).is_ok());
    let first = finder.output().unwrap().clone();
    assert!(finder.find_biscuits(width, height, bytes).is_ok());
    assert_eq!(finder.output().unwrap(), &first);
    assert_eq!(finder.colors().colors(), &table);
}

#[test]
fn table_grows_to_one_more_than_the_number_of_blobs() {
    // 11 rows of 11 isolated pixels: 121 components, more than the 100
    // colours of a new table.
    let mut rows: Vec<String> = Vec::new();
    for y in 0..21 {
        let mut row = String::new();
        for x in 0..21 {
            row.push(if x % 2 == 0 && y % 2 == 0 { '#' } else { '.' });
        }
        rows.push(row);
    }
    let rows: Vec<&str> = rows.iter().map(|row| row.as_str()).collect();
    let (width, height, bytes) = picture(&rows);
    let mut finder = BiscuitFinder::new(Stepper { state: 17 });
    let old_table = finder.colors().colors().clone();
    assert!(finder.find_biscuits(width, height, bytes).is_ok());
    let table = finder.colors().colors().clone();
    assert_eq!(table.len(), 122);
    assert_ne!(&table[..100], &old_table[..]);
    assert_eq!((table[0].r, table[0].g, table[0].b, table[0].a), (0, 0, 0, 0));
    let output = finder.output().unwrap();
    // The blobs are numbered row by row.
    let mut label = 0;
    for y in 0..21 {
        for x in 0..21 {
            let found = pixel(output, y * 21 + x);
            if x % 2 == 0 && y % 2 == 0 {
                label += 1;
                let c = table[label];
                assert_eq!(found, [c.r, c.g, c.b, c.a]);
            } else {
                assert_eq!(found, [0, 0, 0, 0]);
            }
        }
    }
    assert_eq!(label, 121);
}

#[test]
fn one_pixel_images() {
    let mut finder = BiscuitFinder::new(Script::new(vec![0, u32::MAX, 0x8000_0000]));
    assert!(finder.find_biscuits(1, 1, BLACK.to_vec()).is_ok());
    assert_eq!(finder.output().unwrap(), &vec![1, 255, 128, 255]);
    assert!(finder.find_biscuits(1, 1, WHITE.to_vec()).is_ok());
    assert_eq!(finder.output().unwrap(), &vec![0, 0, 0, 0]);
}

#[test]
fn empty_images() {
    let mut finder = BiscuitFinder::new(Script::new(vec![5]));
    assert!(finder.find_biscuits(0, 0, Vec::new()).is_ok());
    assert_eq!(finder.output().unwrap(), &Vec::<u8>::new());
    assert!(finder.find_biscuits(0, 7, Vec::new()).is_ok());
    assert!(finder.find_biscuits(7, 0, Vec::new()).is_ok());
    assert_eq!(finder.find_biscuits(0, 0, vec![1, 2, 3, 4]), Err(FinderError::DimensionMismatch));
}

#[test]
fn any_color_but_the_background_is_foreground() {
    let mut finder = BiscuitFinder::new(Script::new(vec![0x4000_0000]));
    // Differs from opaque white in one channel each, then white itself.
    let bytes = vec![
        254, 255, 255, 255, 255, 255, 255, 255, 255, 254, 255, 255, 255, 255, 255, 255, 255, 255,
        254, 255, 255, 255, 255, 255, 255, 255, 255, 254,
    ];
    assert!(finder.find_biscuits(7, 1, bytes).is_ok());
    let output = finder.output().unwrap();
    for index in 0..7 {
        let expected = if index % 2 == 0 { [64, 64, 64, 255] } else { [0, 0, 0, 0] };
        assert_eq!(pixel(output, index), expected);
    }
}

#[test]
fn background_color_can_be_chosen() {
    let background = biscuiting_lib::Rgba { r: 0, g: 0, b: 0, a: 255 };
    let mut finder = BiscuitFinder::with_background(background, Script::new(vec![u32::MAX]));
    assert_eq!(finder.background(), background);
    let (width, height, bytes) = picture(&["#.#"]);
    assert!(finder.find_biscuits(width, height, bytes).is_ok());
    let output = finder.output().unwrap();
    assert_eq!(pixel(output, 0), [0, 0, 0, 0]);
    assert_eq!(pixel(output, 1), [255, 255, 255, 255]);
    assert_eq!(pixel(output, 2), [0, 0, 0, 0]);
}

#[test]
fn default_background_is_opaque_white() {
    let finder = BiscuitFinder::new(Script::new(vec![1]));
    assert_eq!(finder.background(), biscuiting_lib::Rgba { r: 255, g: 255, b: 255, a: 255 });
}

#[test]
fn error_messages() {
    assert_eq!(FinderError::DimensionMismatch.message(), "couldn't read from raw");
    assert_eq!(FinderError::NoOutputAvailable.message(), "no output");
}

/// The draw that a `Script` hands out at a position.
fn draw_at(draws: &[u32], position: usize) -> u32 {
    draws[position % draws.len()]
}

#[test]
fn new_table_is_made_of_the_first_draws() {
    let draws: Vec<u32> = (0..7).map(|k| 0x2000_0000 * k + 12345).collect();
    let finder = BiscuitFinder::new(Script::new(draws.clone()));
    let table = finder.colors().colors().clone();
    assert_eq!(table.len(), 100);
    assert_eq!((table[0].r, table[0].g, table[0].b, table[0].a), (0, 0, 0, 0));
    for label in 1..100 {
        let first = 3 * (label - 1);
        let expected =
            color_of(draw_at(&draws, first), draw_at(&draws, first + 1), draw_at(&draws, first + 2));
        let found = table[label];
        assert_eq!([found.r, found.g, found.b, found.a], expected);
    }
}

#[test]
fn regenerated_table_is_made_of_fresh_draws_only() {
    let draws: Vec<u32> = (0..7).map(|k| 0x2000_0000 * k + 12345).collect();
    let mut finder = BiscuitFinder::new(Script::new(draws.clone()));
    // 101 blobs in a row: one more label than the table covers.
    let mut row = String::new();
    for _ in 0..101 {
        row.push_str("#.");
    }
    let (width, height, bytes) = picture(&[row.as_str()]);
    assert!(finder.find_biscuits(width, height, bytes).is_ok());
    let table = finder.colors().colors().clone();
    assert_eq!(table.len(), 102);
    assert_eq!((table[0].r, table[0].g, table[0].b, table[0].a), (0, 0, 0, 0));
    // The first table took 297 draws; the new one starts with the next.
    for label in 1..102 {
        let first = 297 + 3 * (label - 1);
        let expected =
            color_of(draw_at(&draws, first), draw_at(&draws, first + 1), draw_at(&draws, first + 2));
        let found = table[label];
        assert_eq!([found.r, found.g, found.b, found.a], expected);
    }
    let output = finder.output().unwrap();
    for blob in 0..101 {
        let c = table[blob + 1];
        assert_eq!(pixel(output, 2 * blob), [c.r, c.g, c.b, c.a]);
        assert_eq!(pixel(output, 2 * blob + 1), [0, 0, 0, 0]);
    }
}

#[test]
fn table_of_exactly_the_needed_size_is_kept() {
    // 99 blobs need the labels 0..=99, which a table of 100 colours covers.
    let mut finder = BiscuitFinder::new(Stepper { state: 23 });
    let table = finder.colors().colors().clone();
    let mut row = String::new();
    for _ in 0..99 {
        row.push_str("#.");
    }
    let (width, height, bytes) = picture(&[row.as_str()]);
    assert!(finder.find_biscuits(width, height, bytes).is_ok());
    assert_eq!(finder.colors().colors(), &table);
    let output = finder.output().unwrap();
    let last = table[99];
    assert_eq!(pixel(output, 2 * 98), [last.r, last.g, last.b, last.a]);
}
