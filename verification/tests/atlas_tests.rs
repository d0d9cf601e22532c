use breakfast_machine::atlas::{test_atlas, Atlas, AtlasEntry, ATLAS_SIZE, BACKGROUND};
use breakfast_machine::error::{decimal_text, BMError, NotFound};
use breakfast_machine::graphics::{Frame, TIM3Bitmap};
use breakfast_machine::packing::{check_layout, Rect};

fn plain_frame(width: u32, height: u32, value: u8) -> Frame {
    Frame::new(width, height, vec![value; (width * height) as usize]).unwrap()
}

fn bitmap_of(name: &str, frames: Vec<Frame>) -> TIM3Bitmap {
    TIM3Bitmap { name: name.to_string(), frames }
}

fn failure(r: Result<(), BMError>) -> String {
    match r {
        Err(BMError::LoadingError { msg }) => msg,
        Ok(()) => panic!("expected a failure"),
    }
}

fn overlap(a: &Rect, b: &Rect) -> bool {
    a.x < b.x + b.width && b.x < a.x + a.width && a.y < b.y + b.height && b.y < a.y + a.height
}

/// Checks every entry against the frames as they were registered, and the
/// canvas pixel by pixel.
fn assert_packed(atlas: &Atlas, registered: &[(&str, usize, u32, u32, Vec<u8>)]) {
    assert!(atlas.is_built());
    assert_eq!(atlas.len(), registered.len());
    let (width, height) = (atlas.width(), atlas.height());
    let mut entries: Vec<AtlasEntry> = Vec::new();
    for (id, (name, frame, w, h, _)) in registered.iter().enumerate() {
        let entry = atlas.lookup(name, *frame).unwrap();
        assert_eq!(entry.id, id);
        assert_eq!((entry.rect.width, entry.rect.height), (*w, *h));
        assert!(entry.rect.x + entry.rect.width <= width);
        assert!(entry.rect.y + entry.rect.height <= height);
        for other in entries.iter() {
            assert!(!overlap(&entry.rect, &other.rect), "{:?} meets {:?}", entry, other);
        }
        entries.push(entry);
    }
    let mut expected = vec![BACKGROUND; (width * height) as usize];
    for (entry, (_, _, w, _, pixels)) in entries.iter().zip(registered.iter()) {
        for (i, value) in pixels.iter().enumerate() {
            let x = entry.rect.x + (i as u32) % w;
            let y = entry.rect.y + (i as u32) / w;
            expected[(y * width + x) as usize] = *value;
        }
    }
    assert!(atlas.canvas() == &expected[..]);
}

// ---- the canvas and registration

#[test]
fn a_new_atlas_is_1024_pixels_square_and_blank() {
    let atlas = Atlas::new().unwrap();
    assert_eq!(ATLAS_SIZE, 1024);
    assert_eq!((atlas.width(), atlas.height()), (1024, 1024));
    assert_eq!(atlas.len(), 0);
    assert!(!atlas.is_built());
    assert_eq!(atlas.canvas().len(), 1024 * 1024);
    assert!(atlas.canvas().iter().all(|p| *p == BACKGROUND));
}

#[test]
fn the_canvas_size_can_be_chosen() {
    let atlas = Atlas::with_size(5, 3).unwrap();
    assert_eq!((atlas.width(), atlas.height()), (5, 3));
    assert_eq!(atlas.canvas(), &[BACKGROUND; 15][..]);
    let none = Atlas::with_size(0, 7).unwrap();
    assert!(none.canvas().is_empty());
}

#[test]
fn a_canvas_of_too_many_pixels_is_refused() {
    assert!(Atlas::with_size(16384, 16384).is_ok());
    for (w, h) in [(16385, 16384), (65536, 65536), (u32::MAX, u32::MAX), (u32::MAX, 1)] {
        match Atlas::with_size(w, h) {
            Err(BMError::LoadingError { msg }) => assert_eq!(msg, "Atlas canvas is too large"),
            Ok(_) => panic!("a canvas of {} by {} was made", w, h),
        }
    }
}

#[test]
fn add_bitmap_registers_every_frame_and_places_none() {
    let mut atlas = Atlas::new().unwrap();
    atlas.add_bitmap(bitmap_of("A", vec![plain_frame(2, 2, 1), plain_frame(3, 1, 2)]));
    assert_eq!(atlas.len(), 2);
    atlas.add_bitmap(bitmap_of("B", vec![]));
    atlas.add_bitmap(bitmap_of("C", vec![plain_frame(1, 1, 3)]));
    assert_eq!(atlas.len(), 3);
    assert!(!atlas.is_built());
    assert!(atlas.canvas().iter().all(|p| *p == BACKGROUND));
    assert_eq!(atlas.lookup("A", 0), Err(NotFound));
}

// ---- packing

#[test]
fn frames_that_fit_are_packed() {
    let mut atlas = Atlas::new().unwrap();
    atlas.add_bitmap(bitmap_of("BIG", vec![plain_frame(600, 600, 1)]));
    atlas.add_bitmap(bitmap_of("SMALL", vec![plain_frame(400, 400, 2), plain_frame(400, 400, 3)]));
    atlas.build().unwrap();
    assert_packed(
        &atlas,
        &[
            ("BIG", 0, 600, 600, vec![1; 360000]),
            ("SMALL", 0, 400, 400, vec![2; 160000]),
            ("SMALL", 1, 400, 400, vec![3; 160000]),
        ],
    );
}

#[test]
fn two_squares_of_600_cannot_share_a_canvas_of_1024() {
    // Their area fits together with a square of 500, but any two of them
    // would have to overlap: each is wider and taller than half the canvas.
    let mut atlas = Atlas::new().unwrap();
    atlas.add_bitmap(bitmap_of(
        "A",
        vec![plain_frame(600, 600, 1), plain_frame(600, 600, 2), plain_frame(500, 500, 3)],
    ));
    assert_eq!(
        failure(atlas.build()),
        "Not enough space in the atlas; rectangles left unplaced: 3"
    );
    assert!(!atlas.is_built());
}

#[test]
fn five_squares_of_600_fail_with_a_capacity_error() {
    let mut atlas = Atlas::new().unwrap();
    let frames = (0..5).map(|i| plain_frame(600, 600, i)).collect();
    atlas.add_bitmap(bitmap_of("A", frames));
    assert_eq!(
        failure(atlas.build()),
        "Not enough space in the atlas; rectangles left unplaced: 5"
    );
    assert!(!atlas.is_built());
    assert_eq!(atlas.lookup("A", 0), Err(NotFound));
    assert!(atlas.canvas().iter().all(|p| *p == BACKGROUND));
}

#[test]
fn a_frame_as_large_as_the_canvas_fills_it() {
    let mut atlas = Atlas::with_size(4, 3).unwrap();
    let pixels: Vec<u8> = (1..=12).collect();
    atlas.add_bitmap(bitmap_of("FULL", vec![Frame::new(4, 3, pixels.clone()).unwrap()]));
    atlas.build().unwrap();
    let entry = atlas.lookup("FULL", 0).unwrap();
    assert_eq!(entry, AtlasEntry { id: 0, rect: Rect { x: 0, y: 0, width: 4, height: 3 } });
    assert_eq!(atlas.canvas(), &pixels[..]);
}

#[test]
fn a_frame_larger_than_the_canvas_fails() {
    for (w, h) in [(5, 1), (1, 4), (5, 4)] {
        let mut atlas = Atlas::with_size(4, 3).unwrap();
        atlas.add_bitmap(bitmap_of("WIDE", vec![plain_frame(w, h, 1)]));
        assert_eq!(
            failure(atlas.build()),
            "Not enough space in the atlas; rectangles left unplaced: 1"
        );
    }
}

#[test]
fn an_atlas_without_frames_builds() {
    let mut atlas = Atlas::with_size(2, 2).unwrap();
    atlas.build().unwrap();
    assert!(atlas.is_built());
    assert_eq!(atlas.canvas(), &[BACKGROUND; 4][..]);
    assert_eq!(atlas.lookup("A", 0), Err(NotFound));
}

#[test]
fn the_canvas_shows_each_frame_row_by_row() {
    let mut atlas = Atlas::with_size(8, 8).unwrap();
    let a0: Vec<u8> = (10..16).collect();
    let a1: Vec<u8> = (20..28).collect();
    let b0: Vec<u8> = (30..39).collect();
    atlas.add_bitmap(bitmap_of(
        "A",
        vec![Frame::new(3, 2, a0.clone()).unwrap(), Frame::new(2, 4, a1.clone()).unwrap()],
    ));
    atlas.add_bitmap(bitmap_of("B", vec![Frame::new(3, 3, b0.clone()).unwrap()]));
    atlas.build().unwrap();
    assert_packed(&atlas, &[("A", 0, 3, 2, a0), ("A", 1, 2, 4, a1), ("B", 0, 3, 3, b0)]);
}

#[test]
fn handles_follow_the_order_of_registration() {
    // The packer places the larger area first; the handles do not follow it.
    let mut atlas = Atlas::with_size(64, 64).unwrap();
    atlas.add_bitmap(bitmap_of("TINY", vec![plain_frame(1, 1, 1)]));
    atlas.add_bitmap(bitmap_of("HUGE", vec![plain_frame(40, 40, 2), plain_frame(2, 2, 3)]));
    atlas.add_bitmap(bitmap_of("MID", vec![plain_frame(10, 10, 4)]));
    atlas.build().unwrap();
    assert_eq!(atlas.lookup("TINY", 0).unwrap().id, 0);
    assert_eq!(atlas.lookup("HUGE", 0).unwrap().id, 1);
    assert_eq!(atlas.lookup("HUGE", 1).unwrap().id, 2);
    assert_eq!(atlas.lookup("MID", 0).unwrap().id, 3);
    // The largest frame was placed first, in the corner.
    assert_eq!(atlas.lookup("HUGE", 0).unwrap().rect, Rect { x: 0, y: 0, width: 40, height: 40 });
}

#[test]
fn many_frames_get_the_handles_from_zero_without_gaps() {
    let mut atlas = Atlas::new().unwrap();
    let mut registered = Vec::new();
    for b in 0..10usize {
        let mut frames = Vec::new();
        for f in 0..7usize {
            let (w, h) = (1 + ((b * 7 + f) % 30) as u32, 1 + ((b * 3 + f * 5) % 20) as u32);
            let value = (b * 7 + f + 1) as u8;
            frames.push(plain_frame(w, h, value));
            registered.push((b, f, w, h, vec![value; (w * h) as usize]));
        }
        atlas.add_bitmap(bitmap_of(&format!("BMP{}", b), frames));
    }
    atlas.build().unwrap();
    let names: Vec<String> = (0..10).map(|b| format!("BMP{}", b)).collect();
    let listed: Vec<(&str, usize, u32, u32, Vec<u8>)> = registered
        .iter()
        .map(|(b, f, w, h, pixels)| (names[*b].as_str(), *f, *w, *h, pixels.clone()))
        .collect();
    assert_packed(&atlas, &listed);
    let mut ids: Vec<usize> =
        listed.iter().map(|(name, f, _, _, _)| atlas.lookup(name, *f).unwrap().id).collect();
    ids.sort();
    assert_eq!(ids, (0..70).collect::<Vec<usize>>());
}

#[test]
fn building_twice_gives_the_same_atlas() {
    let make = || {
        let mut atlas = Atlas::with_size(32, 32).unwrap();
        atlas.add_bitmap(bitmap_of("A", vec![plain_frame(9, 4, 1), plain_frame(20, 20, 2)]));
        atlas.add_bitmap(bitmap_of("B", vec![plain_frame(5, 12, 3)]));
        atlas.build().unwrap();
        atlas
    };
    let (first, mut second) = (make(), make());
    second.build().unwrap();
    for (name, frame) in [("A", 0), ("A", 1), ("B", 0)] {
        assert_eq!(first.lookup(name, frame), second.lookup(name, frame));
    }
    assert!(first.canvas() == second.canvas());
}

#[test]
fn registering_after_a_build_drops_the_placement() {
    let mut atlas = Atlas::with_size(8, 8).unwrap();
    atlas.add_bitmap(bitmap_of("A", vec![plain_frame(2, 2, 1)]));
    atlas.build().unwrap();
    assert!(atlas.lookup("A", 0).is_ok());
    atlas.add_bitmap(bitmap_of("B", vec![plain_frame(2, 2, 2)]));
    assert!(!atlas.is_built());
    assert_eq!(atlas.lookup("A", 0), Err(NotFound));
    atlas.build().unwrap();
    assert_eq!(atlas.lookup("A", 0).unwrap().id, 0);
    assert_eq!(atlas.lookup("B", 0).unwrap().id, 1);
}

#[test]
fn a_failed_build_keeps_the_atlas_as_it_was() {
    let mut atlas = Atlas::with_size(4, 4).unwrap();
    atlas.add_bitmap(bitmap_of("A", vec![plain_frame(4, 4, 1)]));
    atlas.build().unwrap();
    let before = atlas.canvas().to_vec();
    assert_eq!(failure(atlas.place(None)), "Not enough space in the atlas; rectangles left unplaced: 1");
    assert!(atlas.is_built());
    assert_eq!(atlas.canvas(), &before[..]);
    assert_eq!(atlas.lookup("A", 0).unwrap().id, 0);
}

// ---- lookup

#[test]
fn lookup_of_a_key_that_was_never_registered_is_not_found() {
    let mut atlas = Atlas::with_size(8, 8).unwrap();
    atlas.add_bitmap(bitmap_of("A", vec![plain_frame(2, 2, 1), plain_frame(1, 1, 2)]));
    atlas.build().unwrap();
    assert!(atlas.lookup("A", 1).is_ok());
    assert_eq!(atlas.lookup("A", 2), Err(NotFound));
    assert_eq!(atlas.lookup("a", 0), Err(NotFound));
    assert_eq!(atlas.lookup("", 0), Err(NotFound));
    assert_eq!(atlas.lookup("A", usize::MAX), Err(NotFound));
}

#[test]
fn lookup_finds_the_bitmap_registered_first_under_a_name() {
    let mut atlas = Atlas::with_size(8, 8).unwrap();
    atlas.add_bitmap(bitmap_of("A", vec![plain_frame(2, 2, 1)]));
    atlas.add_bitmap(bitmap_of("A", vec![plain_frame(3, 3, 2), plain_frame(1, 1, 3)]));
    atlas.build().unwrap();
    let first = atlas.lookup("A", 0).unwrap();
    assert_eq!((first.id, first.rect.width), (0, 2));
    // The first bitmap has no second frame; the second one has.
    assert_eq!(atlas.lookup("A", 1).unwrap().id, 2);
}

// ---- layouts handed in

#[test]
fn place_takes_a_layout_that_keeps_the_frames_apart() {
    let mut atlas = Atlas::with_size(4, 3).unwrap();
    atlas.add_bitmap(bitmap_of(
        "A",
        vec![Frame::new(2, 2, vec![1, 2, 3, 4]).unwrap(), Frame::new(1, 3, vec![5, 6, 7]).unwrap()],
    ));
    atlas.place(Some(vec![(1, 1), (3, 0)])).unwrap();
    let expected = [[0u8, 0, 0, 5], [0, 1, 2, 6], [0, 3, 4, 7]].concat();
    assert_eq!(atlas.canvas(), &expected[..]);
    assert_eq!(
        atlas.lookup("A", 0),
        Ok(AtlasEntry { id: 0, rect: Rect { x: 1, y: 1, width: 2, height: 2 } })
    );
    assert_eq!(
        atlas.lookup("A", 1),
        Ok(AtlasEntry { id: 1, rect: Rect { x: 3, y: 0, width: 1, height: 3 } })
    );
}

#[test]
fn place_draws_onto_a_blank_canvas_each_time() {
    let mut atlas = Atlas::with_size(3, 1).unwrap();
    atlas.add_bitmap(bitmap_of("A", vec![Frame::new(1, 1, vec![9]).unwrap()]));
    atlas.place(Some(vec![(0, 0)])).unwrap();
    assert_eq!(atlas.canvas(), &[9u8, 0, 0][..]);
    atlas.place(Some(vec![(2, 0)])).unwrap();
    assert_eq!(atlas.canvas(), &[0u8, 0, 9][..]);
}

#[test]
fn place_refuses_a_layout_that_overlaps_or_leaves_the_canvas() {
    let fresh = || {
        let mut atlas = Atlas::with_size(4, 4).unwrap();
        atlas.add_bitmap(bitmap_of("A", vec![plain_frame(2, 2, 1), plain_frame(2, 2, 2)]));
        atlas
    };
    let refused = "Layout does not keep the frames apart on the canvas";
    for layout in [
        vec![(0, 0), (1, 1)],
        vec![(0, 0), (0, 0)],
        vec![(0, 0), (3, 0)],
        vec![(0, 3), (2, 0)],
        vec![(0, 0), (u32::MAX, 0)],
        vec![(0, 0)],
        vec![(0, 0), (2, 2), (0, 2)],
        vec![],
    ] {
        let mut atlas = fresh();
        assert_eq!(failure(atlas.place(Some(layout))), refused);
        assert!(!atlas.is_built());
        assert!(atlas.canvas().iter().all(|p| *p == BACKGROUND));
    }
    let mut atlas = fresh();
    atlas.place(Some(vec![(0, 0), (2, 0)])).unwrap();
    let mut touching = fresh();
    touching.place(Some(vec![(2, 2), (0, 2)])).unwrap();
}

#[test]
fn check_layout_gives_the_rectangles_of_a_good_layout() {
    let sizes = vec![(2, 2), (1, 3)];
    assert_eq!(
        check_layout(&sizes, &vec![(1, 1), (3, 0)], 4, 3),
        Some(vec![
            Rect { x: 1, y: 1, width: 2, height: 2 },
            Rect { x: 3, y: 0, width: 1, height: 3 }
        ])
    );
    assert_eq!(check_layout(&sizes, &vec![(1, 1), (2, 0)], 4, 3), None);
    assert_eq!(check_layout(&sizes, &vec![(1, 1), (3, 1)], 4, 3), None);
    assert_eq!(check_layout(&sizes, &vec![(1, 1)], 4, 3), None);
    assert_eq!(check_layout(&vec![], &vec![], 0, 0), Some(vec![]));
}

// ---- counts in messages

#[test]
fn counts_are_written_in_base_ten() {
    assert_eq!(decimal_text(0), "0");
    assert_eq!(decimal_text(7), "7");
    assert_eq!(decimal_text(10), "10");
    assert_eq!(decimal_text(1905), "1905");
    assert_eq!(decimal_text(1234567890), "1234567890");
    assert_eq!(decimal_text(usize::MAX), usize::MAX.to_string());
}

#[test]
fn the_capacity_error_counts_the_registered_frames() {
    let mut atlas = Atlas::with_size(1, 1).unwrap();
    let frames = (0..12).map(|_| plain_frame(1, 1, 1)).collect();
    atlas.add_bitmap(bitmap_of("A", frames));
    assert_eq!(
        failure(atlas.build()),
        "Not enough space in the atlas; rectangles left unplaced: 12"
    );
}

// ---- the assembly of the part atlas

fn padded(name: &str) -> Vec<u8> {
    let mut field = name.as_bytes().to_vec();
    field.resize(13, 0);
    field
}

fn archive_of(assets: &[(&str, Vec<u8>)]) -> (Vec<u8>, Vec<u32>) {
    let mut data = Vec::new();
    let mut offsets = Vec::new();
    for (name, payload) in assets {
        offsets.push(data.len() as u32);
        data.extend_from_slice(&padded(name));
        data.extend_from_slice(&(payload.len() as u16).to_le_bytes());
        data.extend_from_slice(payload);
    }
    (data, offsets)
}

fn index_of(archives: &[(&str, &[u32])]) -> Vec<u8> {
    let mut data = vec![0x00, 0x01, 0x04, 0x07];
    data.extend_from_slice(&(archives.len() as u16).to_le_bytes());
    for (name, offsets) in archives {
        data.extend_from_slice(&padded(name));
        data.extend_from_slice(&(offsets.len() as u16).to_le_bytes());
        for offset in offsets.iter() {
            data.extend_from_slice(&[0; 4]);
            data.extend_from_slice(&offset.to_le_bytes());
        }
    }
    data
}

fn palette_asset(entries: usize) -> Vec<u8> {
    let mut data = b"RIFF\0\0\0\0PAL data\0\0\0\0".to_vec();
    data.extend_from_slice(&[0x00, 0x03]);
    data.extend_from_slice(&(entries as u16).to_le_bytes());
    for i in 0..entries {
        data.extend_from_slice(&[i as u8, 100, 200, 0]);
    }
    data
}

fn bitmap_asset(frames: &[(u16, u16, u8)]) -> Vec<u8> {
    let mut body = vec![0, 0];
    body.extend_from_slice(&(frames.len() as u16).to_le_bytes());
    let mut at = 12 + 4 * frames.len();
    for (w, h, _) in frames {
        body.extend_from_slice(&(at as u32).to_le_bytes());
        at += 9 + (*w as usize) * (*h as usize);
    }
    for (w, h, value) in frames {
        body.extend_from_slice(&w.to_le_bytes());
        body.extend_from_slice(&h.to_le_bytes());
        body.push(0);
        body.extend_from_slice(&((*w as u32) * (*h as u32)).to_le_bytes());
        body.extend(std::iter::repeat(*value).take((*w as usize) * (*h as usize)));
    }
    let mut data = b"BMP:".to_vec();
    data.extend_from_slice(&(body.len() as u32).to_le_bytes());
    data.extend_from_slice(&body);
    data
}

fn assembly_failure(index: &[u8], first: &[u8], second: &[u8]) -> String {
    match test_atlas(index, first, second) {
        Err(BMError::LoadingError { msg }) => msg,
        Ok(_) => panic!("expected a failure"),
    }
}

#[test]
fn the_part_atlas_holds_the_part_bitmaps_in_order_of_arrival() {
    let (first, first_offsets) = archive_of(&[
        ("PART2.BMP", bitmap_asset(&[(2, 2, 1), (3, 1, 2)])),
        ("TITLE.BMP", bitmap_asset(&[(9, 9, 3)])),
        ("PARTS.TXT", vec![1, 2, 3]),
    ]);
    let (second, second_offsets) = archive_of(&[
        ("TIM.PAL", palette_asset(4)),
        ("PART1.BMP", bitmap_asset(&[(4, 4, 4)])),
        ("part3.bmp", bitmap_asset(&[(5, 5, 5)])),
    ]);
    let index =
        index_of(&[("resource.001", &first_offsets), ("RESOURCE.002", &second_offsets)]);
    let mut atlas = test_atlas(&index, &first, &second).unwrap();
    assert_eq!(atlas.len(), 3);
    assert!(!atlas.is_built());
    atlas.build().unwrap();
    assert_packed(
        &atlas,
        &[
            ("PART2.BMP", 0, 2, 2, vec![1; 4]),
            ("PART2.BMP", 1, 3, 1, vec![2; 3]),
            ("PART1.BMP", 0, 4, 4, vec![4; 16]),
        ],
    );
    assert_eq!(atlas.lookup("TITLE.BMP", 0), Err(NotFound));
    assert_eq!(atlas.lookup("part3.bmp", 0), Err(NotFound));
}

#[test]
fn the_part_atlas_needs_both_archives_in_the_index() {
    let (archive, offsets) = archive_of(&[("TIM.PAL", palette_asset(1))]);
    let only_first = index_of(&[("RESOURCE.001", &offsets)]);
    assert_eq!(
        assembly_failure(&only_first, &archive, &archive),
        "No record in resource map found for RESOURCE.002"
    );
    let only_second = index_of(&[("RESOURCE.002", &offsets)]);
    assert_eq!(
        assembly_failure(&only_second, &archive, &archive),
        "No record in resource map found for RESOURCE.001"
    );
    assert_eq!(assembly_failure(&[1, 2, 3, 4], &[], &[]), "Invalid magic ID for TIM3ResourceMap");
}

#[test]
fn the_part_atlas_needs_the_palette() {
    let (archive, offsets) = archive_of(&[("PART1.BMP", bitmap_asset(&[(1, 1, 1)]))]);
    let index = index_of(&[("RESOURCE.001", &offsets), ("RESOURCE.002", &[])]);
    assert_eq!(assembly_failure(&index, &archive, &[]), "Missing palette");
}

#[test]
fn the_part_atlas_needs_a_palette_that_frames_can_take() {
    for (entries, expected) in [
        (0, "Palette must hold between 1 and 256 colours"),
        (257, "Palette declares more than 256 colours"),
    ] {
        let (archive, offsets) = archive_of(&[("TIM.PAL", palette_asset(entries))]);
        let index = index_of(&[("RESOURCE.001", &offsets), ("RESOURCE.002", &[])]);
        assert_eq!(assembly_failure(&index, &archive, &[]), expected);
    }
    let (archive, offsets) = archive_of(&[("TIM.PAL", b"RIFX".to_vec())]);
    let index = index_of(&[("RESOURCE.001", &offsets), ("RESOURCE.002", &[])]);
    assert_eq!(assembly_failure(&index, &archive, &[]), "Expected RIFF for palette");
}

#[test]
fn the_part_atlas_fails_on_a_part_bitmap_that_does_not_decode() {
    let (archive, offsets) = archive_of(&[
        ("TIM.PAL", palette_asset(2)),
        ("PARTX.BMP", b"BMP?".to_vec()),
    ]);
    let index = index_of(&[("RESOURCE.001", &offsets), ("RESOURCE.002", &[])]);
    assert_eq!(assembly_failure(&index, &archive, &[]), "Invalid magic ID for TIM3Bitmap");
    // The same bytes under another name are not looked at.
    let (archive, offsets) = archive_of(&[
        ("TIM.PAL", palette_asset(2)),
        ("XPART.BMP", b"BMP?".to_vec()),
        ("PART.BMPX", b"BMP?".to_vec()),
    ]);
    let index = index_of(&[("RESOURCE.001", &offsets), ("RESOURCE.002", &[])]);
    assert_eq!(test_atlas(&index, &archive, &[]).unwrap().len(), 0);
}

#[test]
fn the_part_atlas_gives_every_frame_the_palette() {
    let (archive, offsets) = archive_of(&[
        ("TIM.PAL", palette_asset(3)),
        ("PART.BMP", bitmap_asset(&[(1, 1, 2)])),
    ]);
    let index = index_of(&[("RESOURCE.001", &offsets), ("RESOURCE.002", &[])]);
    let atlas = test_atlas(&index, &archive, &[]).unwrap();
    assert_eq!(atlas.len(), 1);
}
