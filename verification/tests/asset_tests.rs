use canvas_core::assets::{
    category_of, decode_hex, delete_outcome, layout_dirs, make_locator, plan_ingest_from_bytes,
    plan_ingest_from_bytes_at, plan_ingest_from_path, plan_ingest_from_path_at, resolve_path,
    sanitize_filename, source_name, unique_name, FileCategory,
};
use canvas_core::error::CoreError;

#[test]
fn missing_source_fails_with_not_found() {
    let r = plan_ingest_from_path(false, "foo.pdf", "pdf");
    match r {
        Err(CoreError::NotFound { path }) => assert_eq!(path, "foo.pdf"),
        other => panic!("expected NotFound, got {:?}", other.is_ok()),
    }
}

#[test]
fn two_ingestions_get_distinct_locators() {
    let a = plan_ingest_from_path_at(true, "foo.pdf", "pdf", 1000).unwrap();
    let b = plan_ingest_from_path_at(true, "foo.pdf", "pdf", 1001).unwrap();
    assert!(a.locator.starts_with("pdfs/"));
    assert!(b.locator.starts_with("pdfs/"));
    assert_ne!(a.locator, b.locator);
}

#[test]
fn deleting_an_absent_locator_reports_false_not_an_error() {
    let first = delete_outcome("pdfs/1_a.pdf", true, None);
    assert_eq!(first.unwrap(), true);
    let second = delete_outcome("pdfs/1_a.pdf", false, None);
    assert_eq!(second.unwrap(), false);
    let third = delete_outcome("pdfs/1_a.pdf", false, None);
    assert_eq!(third.unwrap(), false);
}

#[test]
fn failed_removal_surfaces_io_failure() {
    let r = delete_outcome("pdfs/1_a.pdf", true, Some("device busy".to_string()));
    match r {
        Err(CoreError::IoFailure { path, detail, .. }) => {
            assert_eq!(path, "pdfs/1_a.pdf");
            assert_eq!(detail, "device busy");
        },
        _ => panic!("expected IoFailure"),
    }
}

#[test]
fn locator_shape_and_resolution() {
    let plan = plan_ingest_from_path_at(true, "/tmp/in/notes.txt", "other", 1234).unwrap();
    assert_eq!(plan.filename, "1234_notes.txt");
    assert_eq!(plan.locator, "other/1234_notes.txt");
    let abs = resolve_path("/data/assets", &plan.locator);
    assert_eq!(abs, "/data/assets/other/1234_notes.txt");
}

#[test]
fn categories_route_by_file_type() {
    assert_eq!(category_of("pdf"), FileCategory::Pdfs);
    assert_eq!(category_of("image"), FileCategory::Images);
    assert_eq!(category_of("spreadsheet"), FileCategory::Other);
    assert_eq!(category_of(""), FileCategory::Other);
    assert_eq!(make_locator(FileCategory::Images, "9_x.png"), "images/9_x.png");
}

#[test]
fn filenames_are_timestamp_prefixed() {
    assert_eq!(unique_name(0, "a.txt"), "0_a.txt");
    assert_eq!(unique_name(1699999999999, "scan.pdf"), "1699999999999_scan.pdf");
}

#[test]
fn sanitizing_keeps_only_allowed_characters() {
    assert_eq!(sanitize_filename("my file (1).pdf"), "myfile1.pdf");
    assert_eq!(sanitize_filename("Notes_2024-01.txt"), "Notes_2024-01.txt");
    assert_eq!(sanitize_filename("???"), "file");
    assert_eq!(sanitize_filename(""), "file");
}

#[test]
fn source_name_takes_last_path_component() {
    assert_eq!(source_name("/tmp/in/notes.txt"), "notes.txt");
    assert_eq!(source_name("notes.txt"), "notes.txt");
    assert_eq!(source_name("C:\\docs\\scan.pdf"), "scan.pdf");
    assert_eq!(source_name("/tmp/dir/"), "file");
    assert_eq!(source_name(""), "file");
}

#[test]
fn hex_payloads_decode_exactly() {
    assert_eq!(decode_hex("48656c6c6f").unwrap(), b"Hello".to_vec());
    assert_eq!(decode_hex("").unwrap(), Vec::<u8>::new());
    assert_eq!(decode_hex("00ff"), Some(vec![0u8, 255u8]));
    assert_eq!(decode_hex("4"), None);
    assert_eq!(decode_hex("4z"), None);
}

#[test]
fn byte_ingestion_rejects_bad_encoding() {
    let r = plan_ingest_from_bytes("nothex!", "a.bin", "other");
    match r {
        Err(CoreError::InvalidInput { reason }) => assert!(reason.contains("hex")),
        _ => panic!("expected InvalidInput"),
    }
}

#[test]
fn byte_ingestion_sanitizes_hint_and_returns_bytes() {
    let (plan, bytes) = plan_ingest_from_bytes_at("DEADBEEF", "a b.bin", "image", 77).unwrap();
    assert_eq!(bytes, vec![0xde, 0xad, 0xbe, 0xef]);
    assert_eq!(plan.filename, "77_ab.bin");
    assert_eq!(plan.locator, "images/77_ab.bin");
}

#[test]
fn layout_covers_the_fixed_skeleton() {
    let dirs = layout_dirs("/data");
    assert_eq!(
        dirs,
        vec![
            "/data/assets/pdfs".to_string(),
            "/data/assets/images".to_string(),
            "/data/assets/other".to_string(),
            "/data/backups".to_string(),
            "/data/temp".to_string(),
        ]
    );
}

#[test]
fn clock_stamped_plans_carry_the_declared_category() {
    let plan = plan_ingest_from_path(true, "slides.pdf", "pdf").unwrap();
    assert_eq!(plan.category, FileCategory::Pdfs);
    assert!(plan.locator.starts_with("pdfs/"));
    assert!(plan.locator.ends_with("_slides.pdf"));
}
