use std::io::Cursor;

use webp_batch::codec::{compress_and_encode_image, TranscodeError};
use webp_batch::dispatch::{add_compress_path_list, desired_output_path, mirror_dir, LoadedTask};
use webp_batch::scan::ImageInputData;

fn tiny_png(w: u32, h: u32) -> Vec<u8> {
    let img = image::RgbaImage::from_pixel(w, h, image::Rgba([200u8, 100, 50, 255]));
    let mut buf: Vec<u8> = Vec::new();
    image::DynamicImage::ImageRgba8(img)
        .write_to(&mut Cursor::new(&mut buf), image::ImageFormat::Png)
        .unwrap();
    buf
}

fn task(path: &str, tree_path: &str, bytes: Vec<u8>) -> LoadedTask {
    let disk_size = bytes.len();
    LoadedTask {
        input: ImageInputData {
            path: String::from(path),
            tree_path: String::from(tree_path),
        },
        bytes,
        disk_size,
    }
}

#[test]
fn transcode_of_valid_image_yields_decodable_webp() {
    let png = tiny_png(4, 3);
    let (data, original, compressed) = compress_and_encode_image(&png, 80, png.len()).unwrap();
    assert!(compressed > 0);
    assert_eq!(compressed, data.len());
    assert_eq!(original, png.len());
    let back = image::load_from_memory(&data).unwrap();
    assert_eq!(back.width(), 4);
    assert_eq!(back.height(), 3);
}

#[test]
fn transcode_of_garbage_is_a_decode_error() {
    let garbage = vec![1u8, 2, 3, 4, 5, 6, 7, 8];
    let err = compress_and_encode_image(&garbage, 80, garbage.len()).unwrap_err();
    assert!(matches!(err, TranscodeError::Decode));
    assert_eq!(err.describe(), "the bytes are not a recognized image");
}

#[test]
fn oversized_image_is_an_encode_error_not_a_panic() {
    let png = tiny_png(16384, 1);
    let err = compress_and_encode_image(&png, 80, png.len()).unwrap_err();
    assert!(matches!(err, TranscodeError::Encode));
    assert_eq!(err.describe(), "the encoder refused the pixel buffer");
}

#[test]
fn desired_path_mirrors_structure_when_kept() {
    assert_eq!(desired_output_path("out", "a/b/x.png", "b/x.png", true), "out/b/x.webp");
    assert_eq!(desired_output_path("out", "a/b/x.png", "b/x.png", false), "out/x.webp");
    assert_eq!(desired_output_path("out", "a/b/x.png", "", true), "out/x.webp");
    assert_eq!(desired_output_path("out", "a/b/x.png", "x.png", true), "out/x.webp");
}

#[test]
fn mirror_dir_is_root_plus_parent() {
    assert_eq!(mirror_dir("out", "b/x.png"), "out/b");
    assert_eq!(mirror_dir("out", "x.png"), "out");
}

#[test]
fn batch_mirrors_the_scanned_tree() {
    let tasks = vec![
        task("a/b/x.png", "b/x.png", tiny_png(2, 2)),
        task("a/c/y.png", "c/y.png", tiny_png(2, 2)),
    ];
    let writes = add_compress_path_list(&tasks, 80, "out", true, Vec::new());
    assert_eq!(writes.len(), 2);
    assert_eq!(writes[0].path, "out/b/x.webp");
    assert_eq!(writes[1].path, "out/c/y.webp");
}

#[test]
fn batch_isolates_a_corrupt_file() {
    let tasks = vec![
        task("a/x.png", "", tiny_png(2, 2)),
        task("a/broken.png", "", vec![9u8, 9, 9, 9]),
        task("a/y.png", "", tiny_png(3, 3)),
    ];
    let writes = add_compress_path_list(&tasks, 80, "out", false, Vec::new());
    assert_eq!(writes.len(), 2);
    assert_eq!(writes[0].path, "out/x.webp");
    assert_eq!(writes[1].path, "out/y.webp");
    assert_eq!(writes[0].result.original_size, tasks[0].bytes.len());
    assert_eq!(writes[0].result.compressed_size, writes[0].data.len());
    assert!(writes[0].result.compressed_size > 0);
}

#[test]
fn batch_avoids_existing_and_internal_collisions() {
    let tasks = vec![
        task("a/x.png", "", tiny_png(2, 2)),
        task("b/x.png", "", tiny_png(2, 2)),
    ];
    let existing = vec![String::from("out/x.webp")];
    let writes = add_compress_path_list(&tasks, 80, "out", false, existing);
    assert_eq!(writes.len(), 2);
    assert_eq!(writes[0].path, "out/x-1.webp");
    assert_eq!(writes[1].path, "out/x-2.webp");
}

#[test]
fn empty_batch_plans_nothing() {
    let tasks: Vec<LoadedTask> = Vec::new();
    let writes = add_compress_path_list(&tasks, 80, "out", true, Vec::new());
    assert!(writes.is_empty());
}

#[test]
fn batch_payload_names_the_final_location() {
    let tasks = vec![task("a/x.png", "", tiny_png(2, 2))];
    let writes = add_compress_path_list(&tasks, 80, "out", false, Vec::new());
    assert_eq!(writes.len(), 1);
    assert_eq!(writes[0].result.file_name, writes[0].path);
    let back = image::load_from_memory(&writes[0].data).unwrap();
    assert_eq!(back.width(), 2);
    assert_eq!(back.height(), 2);
}
