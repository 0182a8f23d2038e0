use folder_icon_changer::debounce::{Debouncer, SaveAction, SaveEvent};
use folder_icon_changer::folder_icon::{
    clear_file_attrs_args, clear_folder_readonly_args, desktop_ini_content, desktop_ini_path,
    hide_file_args, set_folder_readonly_args, should_retry, WRITE_RETRIES,
};
use folder_icon_changer::icon_cache::IconCache;
use folder_icon_changer::icon_image::{bgra_to_rgba, decode_rgba_image, pixel_buffer_len, RawImage};
use folder_icon_changer::text::str_eq_ignore_ascii_case;
use folder_icon_changer::types::{AppConfig, FolderExeMapping};

fn one(folder: &str) -> AppConfig {
    AppConfig {
        mappings: vec![FolderExeMapping {
            folder_path: folder.to_string(),
            exe_path: "x.exe".to_string(),
            icon_state: true,
        }],
    }
}

#[test]
fn debouncer_writes_last_of_a_burst_once() {
    let mut d = Debouncer::new();
    assert!(!d.has_pending());
    assert!(matches!(d.step(SaveEvent::Received(one("a"))), SaveAction::Wait));
    assert!(matches!(d.step(SaveEvent::Received(one("b"))), SaveAction::Wait));
    assert!(d.has_pending());
    match d.step(SaveEvent::Timeout) {
        SaveAction::Write(c) => assert_eq!(c.mappings[0].folder_path, "b"),
        other => panic!("expected a write, got {:?}", other),
    }
    assert!(matches!(d.step(SaveEvent::Timeout), SaveAction::Wait));
    assert!(matches!(d.step(SaveEvent::Disconnected), SaveAction::Stop));
}

#[test]
fn debouncer_stops_on_close_without_writing() {
    let mut d = Debouncer::new();
    assert!(matches!(d.step(SaveEvent::Received(one("a"))), SaveAction::Wait));
    assert!(matches!(d.step(SaveEvent::Disconnected), SaveAction::Stop));
}

#[test]
fn icon_cache_fetches_each_path_once() {
    let mut c: IconCache<u32> = IconCache::new();
    assert_eq!(c.get(""), (None, false));
    assert_eq!(c.get(""), (None, false));
    assert_eq!(c.get("a.exe"), (None, true));
    assert_eq!(c.get("a.exe"), (None, false));
    c.tick(vec![("a.exe".to_string(), Some(7)), ("b.exe".to_string(), None)]);
    assert_eq!(c.get("a.exe"), (Some(7), false));
    assert_eq!(c.get("b.exe"), (None, false));
    c.tick(vec![("a.exe".to_string(), Some(9))]);
    assert_eq!(c.get("a.exe"), (Some(9), false));
}

#[test]
fn bgra_becomes_rgba() {
    let mut px = vec![1u8, 2, 3, 4, 5, 6, 7, 8, 9, 10];
    bgra_to_rgba(&mut px);
    assert_eq!(px, vec![3, 2, 1, 4, 7, 6, 5, 8, 9, 10]);
    bgra_to_rgba(&mut px);
    assert_eq!(px, vec![1, 2, 3, 4, 5, 6, 7, 8, 9, 10]);
    let img = RawImage::from_bgra(vec![10, 20, 30, 40], 1, 1);
    assert_eq!(img.pixels, vec![30, 20, 10, 40]);
    assert_eq!((img.width, img.height), (1, 1));
}

#[test]
fn pixel_buffer_len_checks_overflow() {
    assert_eq!(pixel_buffer_len(32, 32), Some(4096));
    assert_eq!(pixel_buffer_len(0, 5), Some(0));
    assert_eq!(pixel_buffer_len(usize::MAX, 2), None);
    assert_eq!(pixel_buffer_len(usize::MAX / 2, 1), None);
}

#[test]
fn decode_png_gives_rgba_pixels() {
    let mut img = image::RgbaImage::new(2, 1);
    img.put_pixel(0, 0, image::Rgba([1, 2, 3, 4]));
    img.put_pixel(1, 0, image::Rgba([5, 6, 7, 8]));
    let mut bytes: Vec<u8> = Vec::new();
    img.write_to(&mut std::io::Cursor::new(&mut bytes), image::ImageFormat::Png).unwrap();
    let raw = decode_rgba_image(&bytes).unwrap();
    assert_eq!((raw.width, raw.height), (2, 1));
    assert_eq!(raw.pixels, vec![1, 2, 3, 4, 5, 6, 7, 8]);
    assert_eq!(raw.pixels.len(), raw.width * raw.height * 4);
    assert!(decode_rgba_image(b"not an image").is_none());
}

#[test]
fn desktop_ini_text() {
    assert_eq!(desktop_ini_path("C:\\Games"), "C:\\Games\\desktop.ini");
    assert_eq!(
        desktop_ini_content("C:\\bin\\g.exe"),
        "[.ShellClassInfo]\r\nIconResource=C:\\bin\\g.exe,0\r\n"
    );
}

#[test]
fn attrib_arguments() {
    assert_eq!(clear_file_attrs_args("p"), vec!["-h", "-s", "-r", "p"]);
    assert_eq!(hide_file_args("p"), vec!["+h", "+s", "p"]);
    assert_eq!(set_folder_readonly_args("f"), vec!["+r", "f"]);
    assert_eq!(clear_folder_readonly_args("f"), vec!["-r", "f"]);
}

#[test]
fn retries_stop_after_three_or_on_success() {
    assert_eq!(WRITE_RETRIES, 3);
    assert!(should_retry(0, false));
    assert!(should_retry(2, false));
    assert!(!should_retry(3, false));
    assert!(!should_retry(0, true));
}

#[test]
fn idle_timeout_writes_nothing() {
    let mut d = Debouncer::new();
    assert!(matches!(d.step(SaveEvent::Timeout), SaveAction::Wait));
    assert!(!d.has_pending());
}

#[test]
fn ascii_case_insensitive_comparison() {
    assert!(str_eq_ignore_ascii_case("C:\\Games", "c:\\gAMES"));
    assert!(!str_eq_ignore_ascii_case("C:\\Ä", "c:\\ä"));
    assert!(!str_eq_ignore_ascii_case("abc", "abcd"));
    assert!(str_eq_ignore_ascii_case("", ""));
}

#[test]
fn stored_none_is_not_fetched_again() {
    let mut c: IconCache<u32> = IconCache::new();
    assert_eq!(c.get("a.exe"), (None, true));
    c.tick(vec![("a.exe".to_string(), None)]);
    c.tick(vec![("b.exe".to_string(), Some(1))]);
    assert_eq!(c.get("a.exe"), (None, false));
    assert_eq!(c.get("b.exe"), (Some(1), false));
    assert_eq!(c.get("b.exe"), (Some(1), false));
}

/// Runs the write-and-retry loop over given attempt outcomes; returns (attempts, succeeded).
fn run_retries(outcomes: &[bool]) -> (usize, bool) {
    let mut attempts = 1;
    let mut ok = outcomes[0];
    let mut retries: usize = 0;
    while should_retry(retries, ok) {
        ok = outcomes[attempts];
        attempts += 1;
        retries += 1;
    }
    (attempts, ok)
}

#[test]
fn retry_loop_makes_at_most_four_attempts() {
    assert_eq!(run_retries(&[true, false, false, false]), (1, true));
    assert_eq!(run_retries(&[false, false, true, false]), (3, true));
    assert_eq!(run_retries(&[false, false, false, true]), (4, true));
    assert_eq!(run_retries(&[false, false, false, false, true]), (4, false));
}
