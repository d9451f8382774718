use object_scan::grid::ImageInfo;
use object_scan::pixel::{erased_pixel, is_background_color, PixelColor, BACKGROUND_THRESHOLD};
use object_scan::region::ObjectInfo;
use object_scan::search::ImageSearch;
use object_scan::source_image::{ImageError, SourceImage};

fn px(r: u8, g: u8, b: u8, a: u8) -> PixelColor {
    PixelColor { r, g, b, a }
}

fn image_from(width: usize, height: usize, colors: &[PixelColor]) -> SourceImage {
    assert_eq!(colors.len(), width * height);
    let mut data: Vec<u8> = Vec::new();
    for c in colors {
        data.push(c.r);
        data.push(c.g);
        data.push(c.b);
        data.push(c.a);
    }
    match SourceImage::from_raw(width, height, data) {
        Ok(img) => img,
        Err(_) => panic!("well-formed test image was rejected"),
    }
}

fn pixel_of(img: &SourceImage, x: usize, y: usize) -> PixelColor {
    img.get_pixel(x, y)
}

fn black() -> PixelColor {
    px(0, 0, 0, 255)
}

fn white() -> PixelColor {
    px(255, 255, 255, 255)
}

#[test]
fn example_single_region_in_row() {
    let mut img = image_from(3, 1, &[black(), black(), white()]);
    let objects = ImageSearch.find_objects(&mut img);
    assert_eq!(objects.len(), 1);
    let o = &objects[0];
    assert_eq!((o.left, o.top, o.right, o.bottom), (0, 0, 1, 0));
    assert_eq!(o.pixel_positions.len(), 2);
    assert!(o.pixel_positions.contains(&(0, 0)));
    assert!(o.pixel_positions.contains(&(1, 0)));
    for x in 0..3 {
        assert_eq!(pixel_of(&img, x, 0), white());
    }
}

#[test]
fn example_diagonal_pixels_make_two_regions() {
    let mut colors = vec![white(); 9];
    colors[0] = black(); // (0, 0)
    colors[4] = black(); // (1, 1)
    let mut img = image_from(3, 3, &colors);
    let objects = ImageSearch.find_objects(&mut img);
    assert_eq!(objects.len(), 2);
    assert_eq!(objects[0].pixel_positions, vec![(0, 0)]);
    assert_eq!(objects[1].pixel_positions, vec![(1, 1)]);
}

#[test]
fn example_all_background_is_untouched() {
    let colors = vec![white(), px(200, 200, 200, 7), px(129, 0, 0, 0), px(0, 255, 0, 1)];
    let mut img = image_from(2, 2, &colors);
    let before = img.data.clone();
    let objects = ImageSearch.find_objects(&mut img);
    assert_eq!(objects.len(), 0);
    assert_eq!(img.data, before);
}

#[test]
fn rejects_zero_area() {
    assert!(matches!(SourceImage::from_raw(0, 5, Vec::new()), Err(ImageError::ZeroArea)));
    assert!(matches!(SourceImage::from_raw(5, 0, Vec::new()), Err(ImageError::ZeroArea)));
}

#[test]
fn rejects_size_mismatch() {
    assert!(matches!(SourceImage::from_raw(2, 2, vec![0u8; 15]), Err(ImageError::SizeMismatch)));
    assert!(matches!(SourceImage::from_raw(2, 2, vec![0u8; 17]), Err(ImageError::SizeMismatch)));
}

#[test]
fn rejects_too_large() {
    assert!(matches!(SourceImage::from_raw(usize::MAX, 2, Vec::new()), Err(ImageError::TooLarge)));
}

#[test]
fn background_threshold_is_strict() {
    assert_eq!(BACKGROUND_THRESHOLD, 128);
    assert!(!is_background_color(px(128, 128, 128, 255)));
    assert!(is_background_color(px(129, 0, 0, 0)));
    assert!(is_background_color(px(0, 129, 0, 0)));
    assert!(is_background_color(px(0, 0, 129, 0)));
    // alpha never makes a pixel background
    assert!(!is_background_color(px(0, 0, 0, 255)));
}

#[test]
fn erasure_color_is_opaque_white() {
    assert_eq!(erased_pixel(), white());
}

#[test]
fn crop_copies_members_and_fills_the_rest() {
    // an L-shaped object with three distinct colors; (1, 0) is background
    let colors = vec![px(10, 0, 0, 255), px(200, 200, 200, 9), px(0, 20, 0, 255), px(
        0,
        0,
        30,
        255,
    )];
    let mut img = image_from(2, 2, &colors);
    let objects = ImageSearch.find_objects(&mut img);
    assert_eq!(objects.len(), 1);
    let o = &objects[0];
    assert_eq!((o.left, o.top, o.right, o.bottom), (0, 0, 1, 1));
    assert_eq!(o.pixel_positions.len(), 3);
    let crop = &o.image;
    assert_eq!((crop.width, crop.height), (2, 2));
    assert_eq!(pixel_of(crop, 0, 0), px(10, 0, 0, 255));
    assert_eq!(pixel_of(crop, 0, 1), px(0, 20, 0, 255));
    assert_eq!(pixel_of(crop, 1, 1), px(0, 0, 30, 255));
    // the non-member corner keeps the default fill
    assert_eq!(pixel_of(crop, 1, 0), px(0, 0, 0, 0));
}

#[test]
fn erasure_whitens_members_and_keeps_background() {
    let bg = px(200, 200, 200, 7);
    let colors = vec![black(), bg, bg, black()];
    let mut img = image_from(2, 2, &colors);
    let objects = ImageSearch.find_objects(&mut img);
    assert_eq!(objects.len(), 2);
    assert_eq!(pixel_of(&img, 0, 0), white());
    assert_eq!(pixel_of(&img, 1, 1), white());
    assert_eq!(pixel_of(&img, 1, 0), bg);
    assert_eq!(pixel_of(&img, 0, 1), bg);
}

#[test]
fn rescan_of_erased_output_finds_nothing() {
    let colors = vec![black(), black(), white(), px(0, 80, 0, 0), white(), black()];
    let mut img = image_from(3, 2, &colors);
    let first = ImageSearch.find_objects(&mut img);
    assert!(first.len() > 0);
    let erased = img.data.clone();
    let second = ImageSearch.find_objects(&mut img);
    assert_eq!(second.len(), 0);
    assert_eq!(img.data, erased);
}

#[test]
fn regions_partition_the_foreground() {
    // three separate objects: a vertical bar and two single pixels
    let colors = vec![
        black(), white(), black(),
        black(), white(), white(),
        black(), white(), black(),
    ];
    let mut img = image_from(3, 3, &colors);
    let before = img.data.clone();
    let objects = ImageSearch.find_objects(&mut img);
    assert_eq!(objects.len(), 3);
    let mut all: Vec<(usize, usize)> = Vec::new();
    for o in &objects {
        for p in &o.pixel_positions {
            assert!(!all.contains(p), "member claimed twice");
            all.push(*p);
        }
    }
    all.sort();
    // exactly the foreground pixels of the input
    let mut fgs: Vec<(usize, usize)> = Vec::new();
    for y in 0..3 {
        for x in 0..3 {
            let idx = 4 * (y * 3 + x);
            let c = px(before[idx], before[idx + 1], before[idx + 2], before[idx + 3]);
            if !is_background_color(c) {
                fgs.push((x, y));
            }
        }
    }
    fgs.sort();
    assert_eq!(all, fgs);
}

#[test]
fn grid_starts_unvisited_and_marks() {
    let mut info = ImageInfo::new(3, 2);
    assert!(!info.pixel(2, 1).was_checked);
    assert!(!info.pixel(0, 0).was_checked);
    info.set_visited(2, 1);
    assert!(info.pixel(2, 1).was_checked);
    assert!(!info.pixel(1, 1).was_checked);
}

#[test]
fn object_info_grows_its_box() {
    let mut o = ObjectInfo::new(4, 5);
    assert_eq!((o.left, o.top, o.right, o.bottom), (4, 5, 4, 5));
    o.add_pixel_position(4, 5);
    o.add_pixel_position(2, 5);
    o.add_pixel_position(4, 7);
    assert_eq!((o.left, o.top, o.right, o.bottom), (2, 5, 4, 7));
    assert_eq!(o.pixel_positions, vec![(4, 5), (2, 5), (4, 7)]);
}

#[test]
fn flood_fill_claims_exactly_one_component() {
    // two components; the fill started on the left one must not touch the right one
    let colors = vec![black(), black(), white(), black()];
    let img = image_from(4, 1, &colors);
    let mut info = ImageInfo::new(4, 1);
    let o = ImageSearch::find_entire_object(&img, &mut info, 0, 0);
    assert_eq!(o.pixel_positions.len(), 2);
    assert!(o.pixel_positions.contains(&(0, 0)));
    assert!(o.pixel_positions.contains(&(1, 0)));
    assert_eq!((o.left, o.top, o.right, o.bottom), (0, 0, 1, 0));
    assert!(info.pixel(0, 0).was_checked);
    assert!(info.pixel(1, 0).was_checked);
    assert!(!info.pixel(2, 0).was_checked);
    assert!(!info.pixel(3, 0).was_checked);
}

#[test]
fn bounding_boxes_are_tight() {
    // a plus shape centered at (1, 1)
    let colors = vec![
        white(), black(), white(),
        black(), black(), black(),
        white(), black(), white(),
    ];
    let mut img = image_from(3, 3, &colors);
    let objects = ImageSearch.find_objects(&mut img);
    assert_eq!(objects.len(), 1);
    let o = &objects[0];
    let min_x = o.pixel_positions.iter().map(|p| p.0).min().unwrap();
    let max_x = o.pixel_positions.iter().map(|p| p.0).max().unwrap();
    let min_y = o.pixel_positions.iter().map(|p| p.1).min().unwrap();
    let max_y = o.pixel_positions.iter().map(|p| p.1).max().unwrap();
    assert_eq!((o.left, o.right, o.top, o.bottom), (min_x, max_x, min_y, max_y));
    for p in &o.pixel_positions {
        assert!(o.left <= p.0 && p.0 <= o.right);
        assert!(o.top <= p.1 && p.1 <= o.bottom);
    }
}
