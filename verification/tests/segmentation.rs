use subtile_ocr::area::Area;
use subtile_ocr::flood::cut_piece;
use subtile_ocr::flood::split_in_pieces;
use subtile_ocr::ocs::Error;
use subtile_ocr::ocs::ImageCharacterSplitter;
use subtile_ocr::ocs::ImagePieces;
use subtile_ocr::ocs::Line;
use subtile_ocr::ocs::Piece;
use subtile_ocr::raster::GrayBitmap;

/// An image drawn with `8` for ink, `x` for gray and anything else for
/// background.
fn picture(rows: &[&str]) -> GrayBitmap {
    let height = rows.len() as u32;
    let width = rows[0].len() as u32;
    let mut data = Vec::new();
    for row in rows {
        assert_eq!(row.len() as u32, width);
        for c in row.chars() {
            data.push(match c {
                '8' => 0u8,
                'x' => 128u8,
                _ => 255u8,
            });
        }
    }
    GrayBitmap::from_vec(width, height, data).unwrap()
}

fn split(rows: &[&str]) -> Result<ImagePieces, Error> {
    ImageCharacterSplitter::from_image(&picture(rows)).split_in_character_img()
}

fn drawing(img: &GrayBitmap) -> Vec<String> {
    let (width, height) = img.dimensions();
    (0..height)
        .map(|y| (0..width).map(|x| if img.get_pixel(x, y) == 0 { '8' } else { '.' }).collect())
        .collect()
}

fn area(left: u16, top: u16, right: u16, bottom: u16) -> Area {
    Area::try_new(left, top, right, bottom).unwrap()
}

#[test]
fn piece_new_takes_the_bounding_box() {
    let piece = Piece::new(vec![(4, 7), (3, 8), (5, 6), (4, 6)]);
    assert_eq!(piece.area(), area(3, 6, 5, 8));
    assert!(!piece.has_img());
}

#[test]
fn piece_create_img_draws_ink_at_the_pixels() {
    let mut piece = Piece::new(vec![(4, 7), (3, 8), (5, 6), (4, 6)]);
    piece.create_img();
    assert!(piece.has_img());
    assert_eq!(piece.img().dimensions(), (3, 3));
    assert_eq!(drawing(piece.img()), vec![".88", ".8.", "8.."]);
    assert_eq!(piece.area(), area(3, 6, 5, 8));
}

#[test]
fn piece_extend_joins_pixels_and_areas() {
    let mut letter = Piece::new(vec![(2, 4), (3, 4), (2, 5), (3, 5)]);
    let accent = Piece::new(vec![(3, 1)]);
    letter.extend(accent);
    assert_eq!(letter.area(), area(2, 1, 3, 5));
    letter.create_img();
    assert_eq!(drawing(letter.img()), vec![".8", "..", "..", "88", "88"]);
}

#[test]
fn line_from_piece_has_the_area_of_the_piece() {
    let line = Line::from_piece(Piece::new(vec![(2, 4), (3, 5)]));
    assert_eq!(line.area(), area(2, 4, 3, 5));
    assert_eq!(line.pieces().len(), 1);
    assert_eq!(line.base_y(), None);
}

#[test]
fn line_extend_with_piece_grows_the_area() {
    let mut line = Line::from_piece(Piece::new(vec![(2, 4), (3, 5)]));
    line.extend_with_piece(Piece::new(vec![(10, 2), (11, 4)]));
    assert_eq!(line.area(), area(2, 2, 11, 5));
    assert_eq!(line.pieces().len(), 2);
    assert_eq!(line.pieces()[1].area(), area(10, 2, 11, 4));
}

#[test]
fn line_sort_pieces_orders_by_left_edge_and_keeps_ties() {
    let mut line = Line::from_piece(Piece::new(vec![(9, 0)]));
    line.extend_with_piece(Piece::new(vec![(4, 1)]));
    line.extend_with_piece(Piece::new(vec![(7, 0)]));
    line.extend_with_piece(Piece::new(vec![(4, 0)]));
    line.extend_with_piece(Piece::new(vec![(1, 0)]));
    line.sort_pieces();
    let areas: Vec<Area> = line.pieces().iter().map(|p| p.area()).collect();
    assert_eq!(
        areas,
        vec![area(1, 0, 1, 0), area(4, 1, 4, 1), area(4, 0, 4, 0), area(7, 0, 7, 0), area(9, 0, 9, 0)]
    );
    assert_eq!(line.area(), area(1, 0, 9, 1));
}

#[test]
fn line_group_accent_merges_a_piece_within_the_columns_of_the_one_before() {
    let mut line = Line::from_piece(Piece::new(vec![(2, 4), (5, 9)]));
    line.extend_with_piece(Piece::new(vec![(3, 1), (4, 2)]));
    line.extend_with_piece(Piece::new(vec![(5, 0)]));
    line.extend_with_piece(Piece::new(vec![(6, 3)]));
    line.extend_with_piece(Piece::new(vec![(6, 8)]));
    line.group_accent();
    let areas: Vec<Area> = line.pieces().iter().map(|p| p.area()).collect();
    assert_eq!(areas, vec![area(2, 0, 5, 9), area(6, 3, 6, 8)]);
}

#[test]
fn line_establish_x_base_uses_body_pieces_only() {
    let mut line = Line::from_piece(Piece::new(vec![(0, 0), (0, 9)]));
    line.extend_with_piece(Piece::new(vec![(2, 4), (2, 9)]));
    line.extend_with_piece(Piece::new(vec![(4, 4), (4, 11)]));
    line.extend_with_piece(Piece::new(vec![(6, 0), (6, 1)]));
    assert_eq!(line.area(), area(0, 0, 6, 11));
    assert!(line.has_body_piece());
    line.establish_x_base();
    assert_eq!(line.base_y(), Some((4, 9)));
}

#[test]
fn line_establish_x_base_counts_a_piece_of_half_the_height() {
    let mut line = Line::from_piece(Piece::new(vec![(0, 0), (0, 9)]));
    line.extend_with_piece(Piece::new(vec![(2, 3), (2, 7)]));
    line.extend_with_piece(Piece::new(vec![(4, 5), (4, 8)]));
    line.establish_x_base();
    assert_eq!(line.base_y(), Some((3, 7)));
}

#[test]
fn line_without_a_body_piece_is_told_apart() {
    let mut line = Line::from_piece(Piece::new(vec![(0, 0), (0, 1)]));
    line.extend_with_piece(Piece::new(vec![(2, 1), (2, 2)]));
    line.extend_with_piece(Piece::new(vec![(4, 2), (4, 3)]));
    line.extend_with_piece(Piece::new(vec![(6, 3), (6, 4)]));
    line.extend_with_piece(Piece::new(vec![(8, 4), (8, 5)]));
    assert!(!line.has_body_piece());
}

#[test]
fn line_create_images_draws_each_piece() {
    let mut line = Line::from_piece(Piece::new(vec![(0, 0), (0, 1)]));
    line.extend_with_piece(Piece::new(vec![(2, 0), (3, 1)]));
    line.create_images();
    assert_eq!(drawing(line.pieces()[0].img()), vec!["8", "8"]);
    assert_eq!(drawing(line.pieces()[1].img()), vec!["8.", ".8"]);
}

#[test]
fn cut_piece_gathers_what_is_connected_and_erases_it() {
    let mut img = picture(&[
        "88  8", //
        " 8  8", //
        " 888 ", //
        "     ", //
        "8    ",
    ]);
    let mut piece = cut_piece(0, 0, &mut img);
    assert_eq!(piece.area(), area(0, 0, 3, 2));
    piece.create_img();
    assert_eq!(drawing(piece.img()), vec!["88..", ".8..", ".888"]);
    assert_eq!(drawing(&img), vec!["....8", "....8", ".....", ".....", "8...."]);
}

#[test]
fn cut_piece_of_a_single_pixel() {
    let mut img = picture(&["   ", " 8 ", "   "]);
    let piece = cut_piece(1, 1, &mut img);
    assert_eq!(piece.area(), area(1, 1, 1, 1));
    assert_eq!(drawing(&img), vec!["...", "...", "..."]);
}

#[test]
fn cut_piece_reaches_around_corners() {
    let mut img = picture(&[
        "8 888", //
        "8 8 8", //
        "888 8",
    ]);
    let mut piece = cut_piece(0, 0, &mut img);
    assert_eq!(piece.area(), area(0, 0, 4, 2));
    piece.create_img();
    assert_eq!(drawing(piece.img()), vec!["8.888", "8.8.8", "888.8"]);
}

#[test]
fn split_in_pieces_finds_pieces_in_scan_order() {
    let pieces = split_in_pieces(picture(&[
        "  8  8", //
        "8 8   ", //
        "8    8",
    ]))
    .unwrap();
    let areas: Vec<Area> = pieces.iter().map(|p| p.area()).collect();
    assert_eq!(
        areas,
        vec![area(2, 0, 2, 1), area(5, 0, 5, 0), area(0, 1, 0, 2), area(5, 2, 5, 2)]
    );
}

#[test]
fn split_in_pieces_of_an_image_without_ink_is_empty() {
    assert!(split_in_pieces(picture(&["   ", "   "])).unwrap().is_empty());
}

#[test]
fn split_in_pieces_rejects_gray() {
    assert_eq!(
        split_in_pieces(picture(&["8  ", "  x"])).err(),
        Some(Error::ImageWithGrayIsInvalid)
    );
}

#[test]
fn diagonal_blobs_are_two_pieces() {
    let pieces = split(&[
        "    ", //
        " 8  ", //
        "  8 ", //
        "    ",
    ])
    .unwrap();
    let count: usize = pieces.lines().iter().map(|line| line.pieces().len()).sum();
    assert_eq!(count, 2);
    assert_eq!(pieces.lines()[0].pieces()[0].area(), area(1, 1, 1, 1));
    assert_eq!(pieces.lines()[1].pieces()[0].area(), area(2, 2, 2, 2));
}

#[test]
fn diagonal_blocks_are_two_pieces() {
    let pieces = split(&[
        "88  ", //
        "88  ", //
        "  88", //
        "  88",
    ])
    .unwrap();
    let count: usize = pieces.lines().iter().map(|line| line.pieces().len()).sum();
    assert_eq!(count, 2);
}

#[test]
fn diagonal_blobs_in_one_line_are_two_pieces() {
    let pieces = split(&[
        "88 ", //
        "8 8",
    ])
    .unwrap();
    assert_eq!(pieces.lines().len(), 1);
    let line = &pieces.lines()[0];
    assert_eq!(line.pieces().len(), 2);
    assert_eq!(line.pieces()[0].area(), area(0, 0, 1, 1));
    assert_eq!(line.pieces()[1].area(), area(2, 1, 2, 1));
    assert_eq!(drawing(line.pieces()[0].img()), vec!["88", "8."]);
}

#[test]
fn edge_adjacent_blobs_are_one_piece() {
    let pieces = split(&[
        "88  ", //
        "88  ", //
        " 888", //
        "  88",
    ])
    .unwrap();
    assert_eq!(pieces.lines().len(), 1);
    assert_eq!(pieces.lines()[0].pieces().len(), 1);
    assert_eq!(pieces.lines()[0].pieces()[0].area(), area(0, 0, 3, 3));
}

#[test]
fn gray_pixel_is_rejected() {
    let r = split(&[
        "8   ", //
        "8 x ", //
        "8   ",
    ]);
    assert_eq!(r.err(), Some(Error::ImageWithGrayIsInvalid));
}

#[test]
fn gray_pixel_is_rejected_even_after_ink() {
    let r = split(&["888x"]);
    assert_eq!(r.err(), Some(Error::ImageWithGrayIsInvalid));
}

#[test]
fn image_without_ink_has_no_characters() {
    let r = split(&["    ", "    "]);
    assert_eq!(r.err(), Some(Error::NoCharactersFound));
}

#[test]
fn image_without_pixels_has_no_characters() {
    let img = GrayBitmap::from_vec(0, 0, Vec::new()).unwrap();
    let r = ImageCharacterSplitter::from_image(&img).split_in_character_img();
    assert_eq!(r.err(), Some(Error::NoCharactersFound));
}

#[test]
fn segmentation_gives_the_same_result_each_time() {
    let rows = [
        "8  88   8 ", //
        "8  88  888", //
        "8       8 ", //
        "          ", //
        " 88   8   ", //
        " 88   8   ",
    ];
    let first = split(&rows).unwrap();
    let second = split(&rows).unwrap();
    assert_eq!(first.lines().len(), second.lines().len());
    for (a, b) in first.lines().iter().zip(second.lines().iter()) {
        assert_eq!(a.area(), b.area());
        assert_eq!(a.base_y(), b.base_y());
        assert_eq!(a.pieces().len(), b.pieces().len());
        for (p, q) in a.pieces().iter().zip(b.pieces().iter()) {
            assert_eq!(p.area(), q.area());
            assert_eq!(p.img().as_raw(), q.img().as_raw());
            assert_eq!(p.img().dimensions(), q.img().dimensions());
        }
    }
}

#[test]
fn lines_come_from_the_top_and_pieces_from_the_left() {
    let pieces = split(&[
        "8  88   8 ", //
        "8  88  888", //
        "8       8 ", //
        "          ", //
        " 88   8   ", //
        " 88   8   ",
    ])
    .unwrap();
    assert_eq!(pieces.lines().len(), 2);
    let top: Vec<Area> = pieces.lines()[0].pieces().iter().map(|p| p.area()).collect();
    assert_eq!(top, vec![area(0, 0, 0, 2), area(3, 0, 4, 1), area(7, 0, 9, 2)]);
    let bottom: Vec<Area> = pieces.lines()[1].pieces().iter().map(|p| p.area()).collect();
    assert_eq!(bottom, vec![area(1, 4, 2, 5), area(6, 4, 6, 5)]);
    assert_eq!(pieces.lines()[0].area(), area(0, 0, 9, 2));
    assert_eq!(pieces.lines()[1].area(), area(1, 4, 6, 5));
}

#[test]
fn baseline_lies_within_the_line() {
    let pieces = split(&[
        "8      ", //
        "8  8  8", //
        "8  8  8", //
        "8  8  8", //
        "      8",
    ])
    .unwrap();
    assert_eq!(pieces.lines().len(), 1);
    let line = &pieces.lines()[0];
    assert_eq!(line.area(), area(0, 0, 6, 4));
    let (top, bottom) = line.base_y().unwrap();
    assert_eq!((top, bottom), (1, 3));
    assert!(line.area().contain_point_y(top));
    assert!(line.area().contain_point_y(bottom));
}

#[test]
fn accent_is_joined_to_its_letter() {
    let pieces = split(&[
        "       ", //
        "8  88  ", //
        "8      ", //
        "8      ", //
        "8 8888 ", //
        "8 8  8 ", //
        "8 8888 ",
    ])
    .unwrap();
    assert_eq!(pieces.lines().len(), 1);
    let line = &pieces.lines()[0];
    assert_eq!(line.pieces().len(), 2);
    assert_eq!(line.pieces()[0].area(), area(0, 1, 0, 6));
    assert_eq!(line.pieces()[1].area(), area(2, 1, 5, 6));
    assert_eq!(
        drawing(line.pieces()[1].img()),
        vec![".88.", "....", "....", "8888", "8..8", "8888"]
    );
    assert_eq!(line.base_y(), Some((1, 6)));
}

#[test]
fn pieces_in_separate_rows_form_separate_lines() {
    let pieces = split(&[
        " 8    ", //
        "      ", //
        "8    8", //
        "8    8", //
        "8    8",
    ])
    .unwrap();
    assert_eq!(pieces.lines().len(), 2);
    assert_eq!(pieces.lines()[0].pieces().len(), 1);
    assert_eq!(pieces.lines()[1].pieces().len(), 2);
}

#[test]
fn images_gives_the_bitmaps_line_by_line() {
    let pieces = split(&[
        "8 88", //
        "8 8 ", //
        "    ", //
        " 8  ",
    ])
    .unwrap();
    let images = pieces.images();
    assert_eq!(images.len(), 2);
    assert_eq!(images[0].len(), 2);
    assert_eq!(images[1].len(), 1);
    assert_eq!(drawing(images[0][0]), vec!["8", "8"]);
    assert_eq!(drawing(images[0][1]), vec!["88", "8."]);
    assert_eq!(drawing(images[1][0]), vec!["8"]);
}

#[test]
fn try_split_cuts_what_split_cuts() {
    let img = picture(&["8 8", "8 8"]);
    let found = ImageCharacterSplitter::from_image(&img).try_split_in_character_img();
    let pieces = found.unwrap().unwrap();
    assert_eq!(pieces.lines().len(), 1);
    assert_eq!(pieces.lines()[0].pieces().len(), 2);
}

#[test]
fn try_split_reports_errors() {
    let found = ImageCharacterSplitter::from_image(&picture(&["x"])).try_split_in_character_img();
    assert_eq!(found.unwrap().err(), Some(Error::ImageWithGrayIsInvalid));
    let found = ImageCharacterSplitter::from_image(&picture(&[" "])).try_split_in_character_img();
    assert_eq!(found.unwrap().err(), Some(Error::NoCharactersFound));
}

#[test]
fn try_split_gives_nothing_for_an_image_that_is_too_high() {
    let img = GrayBitmap::from_vec(1, 0x8001, vec![255; 0x8001]).unwrap();
    assert!(ImageCharacterSplitter::from_image(&img).try_split_in_character_img().is_none());
    let img = GrayBitmap::from_vec(1, 0x8000, vec![255; 0x8000]).unwrap();
    assert!(ImageCharacterSplitter::from_image(&img).try_split_in_character_img().is_some());
}

#[test]
fn try_split_gives_nothing_for_an_image_that_is_too_wide() {
    let img = GrayBitmap::from_vec(0x10001, 1, vec![255; 0x10001]).unwrap();
    assert!(ImageCharacterSplitter::from_image(&img).try_split_in_character_img().is_none());
    let img = GrayBitmap::from_vec(0x10000, 1, vec![255; 0x10000]).unwrap();
    assert!(ImageCharacterSplitter::from_image(&img).try_split_in_character_img().is_some());
}

#[test]
fn try_split_gives_nothing_for_a_line_without_a_body_piece() {
    let img = picture(&[
        "8        ", //
        "8 8      ", //
        "  8 8    ", //
        "    8 8  ", //
        "      8 8", //
        "        8",
    ]);
    assert!(ImageCharacterSplitter::from_image(&img).try_split_in_character_img().is_none());
}

#[test]
fn piece_at_the_far_corner_of_the_largest_image_keeps_its_place() {
    let width = 0x10000u32;
    let height = 2u32;
    let mut data = vec![255u8; (width * height) as usize];
    data[(width * height - 1) as usize] = 0;
    let img = GrayBitmap::from_vec(width, height, data).unwrap();
    let pieces = ImageCharacterSplitter::from_image(&img).split_in_character_img().unwrap();
    assert_eq!(pieces.lines()[0].pieces()[0].area(), area(0xffff, 1, 0xffff, 1));
}

#[test]
fn every_ink_pixel_belongs_to_one_piece() {
    let rows = [
        "88  8 8  ", //
        "8  88  8 ", //
        "  8   88 ", //
        " 8  8    ", //
        "88  88  8",
    ];
    let img = picture(&rows);
    let mut pieces = split_in_pieces(picture(&rows)).unwrap();
    let (width, height) = img.dimensions();
    let mut owners = vec![0u32; (width * height) as usize];
    for piece in pieces.iter_mut() {
        piece.create_img();
        let area = piece.area();
        let (w, h) = piece.img().dimensions();
        assert_eq!((w, h), (area.width(), area.height()));
        for y in 0..h {
            for x in 0..w {
                if piece.img().get_pixel(x, y) == 0 {
                    let at = (y + u32::from(area.top())) * width + x + u32::from(area.left());
                    owners[at as usize] += 1;
                }
            }
        }
    }
    for y in 0..height {
        for x in 0..width {
            let expected = if img.get_pixel(x, y) == 0 { 1 } else { 0 };
            assert_eq!(owners[(y * width + x) as usize], expected, "pixel ({x}, {y})");
        }
    }
    assert_eq!(pieces.len(), 8);
}

#[test]
fn samples_beyond_the_pixels_are_not_cut() {
    let img = GrayBitmap::from_vec(2, 1, vec![0, 255, 0, 0, 128]).unwrap();
    let pieces = ImageCharacterSplitter::from_image(&img).split_in_character_img().unwrap();
    assert_eq!(pieces.lines().len(), 1);
    assert_eq!(pieces.lines()[0].pieces().len(), 1);
    assert_eq!(pieces.lines()[0].pieces()[0].area(), area(0, 0, 0, 0));
    assert_eq!(pieces.lines()[0].pieces()[0].img().as_raw(), &vec![0u8]);
}

#[test]
fn piece_with_a_pixel_given_twice_holds_it_once() {
    let mut piece = Piece::new(vec![(1, 1), (2, 1), (1, 1)]);
    assert_eq!(piece.area(), area(1, 1, 2, 1));
    piece.create_img();
    assert_eq!(piece.img().as_raw(), &vec![0u8, 0u8]);
}

#[test]
fn splitter_leaves_the_given_image_as_it_is() {
    let img = picture(&["88 ", " 8 "]);
    let _ = ImageCharacterSplitter::from_image(&img).split_in_character_img().unwrap();
    assert_eq!(drawing(&img), vec!["88.", ".8."]);
}
