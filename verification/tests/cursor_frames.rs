use wayland_commons::cursor::{parse_size, Cursor, CursorImage, CursorImageBuffer, CursorTheme, FrameAndDuration};

fn image(size: u32, width: u32, height: u32, delay: u32) -> CursorImage {
    CursorImage {
        size,
        width,
        height,
        xhot: 1,
        yhot: 2,
        delay,
        pixels_rgba: vec![0; (4 * width * height) as usize],
    }
}

// the bytes of an Xcursor file holding the given images
fn xcursor_file(images: &[(u32, u32, u32, u32, u32, u32)]) -> Vec<u8> {
    let mut out = Vec::new();
    let le = |out: &mut Vec<u8>, v: u32| out.extend_from_slice(&v.to_le_bytes());
    out.extend_from_slice(b"Xcur");
    le(&mut out, 16);
    le(&mut out, 0x1_0000);
    le(&mut out, images.len() as u32);
    let mut pos = 16 + 12 * images.len() as u32;
    for &(size, w, h, _, _, _) in images {
        le(&mut out, 0xfffd_0002);
        le(&mut out, size);
        le(&mut out, pos);
        pos += 36 + 4 * w * h;
    }
    for &(size, w, h, xhot, yhot, delay) in images {
        le(&mut out, 36);
        le(&mut out, 0xfffd_0002);
        le(&mut out, size);
        le(&mut out, 1);
        le(&mut out, w);
        le(&mut out, h);
        le(&mut out, xhot);
        le(&mut out, yhot);
        le(&mut out, delay);
        out.extend(std::iter::repeat(0x80u8).take((4 * w * h) as usize));
    }
    out
}

fn animated() -> Cursor {
    // three frames of 10, 20 and 30 ms at the nearest size, and one image of another size
    let images = [image(24, 24, 24, 10), image(32, 32, 32, 5), image(24, 24, 24, 20), image(24, 24, 24, 30)];
    Cursor::new("wait", &images, 24)
}

#[test]
fn nearest_size_images_are_kept() {
    let c = animated();
    assert_eq!(c.image_count(), 3);
    assert_eq!(c.frame(0).delay(), 10);
    assert_eq!(c.frame(1).delay(), 20);
    assert_eq!(c.frame(2).delay(), 30);
    assert_eq!(c.frame(2).dimensions(), (24, 24));
    assert_eq!(c.frame(2).hotspot(), (1, 2));
    let bigger = Cursor::new("wait", &[image(24, 24, 24, 10), image(32, 32, 32, 5)], 30);
    assert_eq!(bigger.image_count(), 1);
    assert_eq!(bigger.frame(0).dimensions(), (32, 32));
}

#[test]
fn ties_go_to_the_first_image() {
    let c = Cursor::new("x", &[image(20, 20, 20, 1), image(28, 28, 28, 1)], 24);
    assert_eq!(c.image_count(), 1);
    assert_eq!(c.frame(0).dimensions(), (20, 20));
}

#[test]
fn frame_and_duration_values() {
    let c = animated();
    assert_eq!(c.frame_and_duration(0), FrameAndDuration { frame_index: 0, frame_duration: 10 });
    assert_eq!(c.frame_and_duration(5), FrameAndDuration { frame_index: 0, frame_duration: 5 });
    assert_eq!(c.frame_and_duration(10), FrameAndDuration { frame_index: 1, frame_duration: 20 });
    assert_eq!(c.frame_and_duration(29), FrameAndDuration { frame_index: 1, frame_duration: 1 });
    assert_eq!(c.frame_and_duration(30), FrameAndDuration { frame_index: 2, frame_duration: 30 });
    assert_eq!(c.frame_and_duration(59), FrameAndDuration { frame_index: 2, frame_duration: 1 });
}

#[test]
fn duration_is_time_left_in_frame() {
    let c = Cursor::new("x", &[image(24, 24, 24, 10), image(24, 24, 24, 20)], 24);
    assert_eq!(c.frame_and_duration(2), FrameAndDuration { frame_index: 0, frame_duration: 8 });
    assert_eq!(c.frame_and_duration(12), FrameAndDuration { frame_index: 1, frame_duration: 18 });
}

#[test]
fn time_wraps() {
    let c = animated();
    // the animation lasts 60 ms
    assert_eq!(c.frame_and_duration(5), c.frame_and_duration(65));
    assert_eq!(c.frame_and_duration(60), c.frame_and_duration(0));
    assert_eq!(c.frame_and_duration(125), FrameAndDuration { frame_index: 0, frame_duration: 5 });
}

#[test]
fn frame_always_in_range() {
    let c = animated();
    for millis in 0..200u32 {
        let f = c.frame_and_duration(millis);
        assert!(f.frame_index < c.image_count());
        assert!(f.frame_duration > 0);
        assert!(f.frame_duration <= c.frame(f.frame_index).delay());
    }
}

#[test]
fn buffer_of_image() {
    let b = CursorImageBuffer::new(&image(24, 16, 8, 40));
    assert_eq!(b.dimensions(), (16, 8));
    assert_eq!(b.hotspot(), (1, 2));
    assert_eq!(b.delay(), 40);
}

#[test]
fn theme_loads_and_finds_cursors() {
    let mut theme = CursorTheme::load_from_name("default", 24);
    assert_eq!(theme.name(), "default");
    assert_eq!(theme.size(), 24);
    assert!(theme.find_cursor("left_ptr").is_none());
    let file = xcursor_file(&[(24, 2, 2, 0, 1, 50), (48, 4, 4, 1, 1, 50), (24, 2, 2, 1, 0, 70)]);
    let loaded = theme.load_cursor("left_ptr", &file).unwrap();
    assert_eq!(loaded.image_count(), 2);
    assert_eq!(loaded.frame(0).hotspot(), (0, 1));
    assert_eq!(loaded.frame(1).hotspot(), (1, 0));
    assert_eq!(loaded.frame_and_duration(60), FrameAndDuration { frame_index: 1, frame_duration: 60 });
    let found = theme.find_cursor("left_ptr").unwrap();
    assert_eq!(found.image_count(), 2);
    assert!(theme.find_cursor("hand").is_none());
}

#[test]
fn second_request_gives_the_cached_cursor() {
    let mut theme = CursorTheme::load_from_name("default", 24);
    let file = xcursor_file(&[(24, 2, 2, 1, 1, 50), (24, 2, 2, 0, 0, 70)]);
    let mut reads = 0;
    let first = theme
        .get_cursor("wait", || {
            reads += 1;
            Some(file.clone())
        })
        .unwrap();
    assert_eq!(first.image_count(), 2);
    assert_eq!(first.frame(0).hotspot(), (1, 1));
    // the second request reads no file and finds the same cursor
    let second = theme
        .get_cursor("wait", || {
            reads += 1;
            Some(xcursor_file(&[(24, 3, 3, 0, 0, 10)]))
        })
        .unwrap();
    assert_eq!(second.image_count(), 2);
    assert_eq!(second.frame(0).hotspot(), (1, 1));
    assert_eq!(second.frame(1).delay(), 70);
    assert_eq!(reads, 1);
}

#[test]
fn missing_files_give_no_cursor() {
    let mut theme = CursorTheme::load_from_name("default", 24);
    assert!(theme.get_cursor("hand", || None).is_none());
    assert!(theme.get_cursor("hand", || Some(b"junk".to_vec())).is_none());
    assert!(theme.find_cursor("hand").is_none());
}

#[test]
fn theme_refuses_bad_files() {
    let mut theme = CursorTheme::load_from_name("default", 24);
    assert!(theme.load_cursor("a", b"not a cursor").is_none());
    // an Xcursor file without images
    assert!(theme.load_cursor("b", &xcursor_file(&[])).is_none());
    // an image with its hotspot outside
    assert!(theme.load_cursor("c", &xcursor_file(&[(24, 2, 2, 3, 0, 10)])).is_none());
    assert!(theme.find_cursor("a").is_none());
    assert!(theme.find_cursor("c").is_none());
}

#[test]
fn theme_refuses_too_long_animations() {
    let mut theme = CursorTheme::load_from_name("default", 24);
    let file = xcursor_file(&[(24, 1, 1, 0, 0, u32::MAX), (24, 1, 1, 0, 0, 1)]);
    assert!(theme.load_cursor("spin", &file).is_none());
}

#[test]
fn sizes_read_as_decimal() {
    assert_eq!(parse_size("24"), Some(24));
    assert_eq!(parse_size("+48"), Some(48));
    assert_eq!(parse_size("0007"), Some(7));
    assert_eq!(parse_size("4294967295"), Some(u32::MAX));
    assert_eq!(parse_size("4294967296"), None);
    assert_eq!(parse_size("99999999999999999999999"), None);
    assert_eq!(parse_size(""), None);
    assert_eq!(parse_size("+"), None);
    assert_eq!(parse_size("-1"), None);
    assert_eq!(parse_size("2 4"), None);
    assert_eq!(parse_size("x"), None);
    for text in ["1", "+1", "12a", "-0", "65536", " 5", "5 "] {
        assert_eq!(parse_size(text), text.parse::<u32>().ok());
    }
}

#[test]
fn theme_settings_from_environment() {
    let t = CursorTheme::load_or("default", 24, None, None);
    assert_eq!((t.name(), t.size()), ("default", 24));
    let t = CursorTheme::load_or("default", 24, Some("Adwaita".to_string()), Some("32".to_string()));
    assert_eq!((t.name(), t.size()), ("Adwaita", 32));
    let t = CursorTheme::load_or("default", 24, None, Some("big".to_string()));
    assert_eq!((t.name(), t.size()), ("default", 24));
}

#[test]
fn frame_metadata() {
    let c = animated();
    assert_eq!(c.name(), "wait");
    assert_eq!(c.frame_info(1), Some((24, 24, 1, 2, 20)));
    assert_eq!(c.frame_info(3), None);
}
