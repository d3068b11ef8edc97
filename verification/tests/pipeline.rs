use bg_remover::error::AppError;
use bg_remover::inference::{check_output_shape, debug_list_string, intra_thread_count, model_input_rgb, MODEL_INPUT_SIZE};
use bg_remover::pipeline::{
    check_decode_size, composite_rgba, engine_load_step, exceeds_inference_edge, inference_rgb,
    preview_file_name, suffix_from_nanos, EngineStep, MAX_DECODE_PIXELS, MAX_INFERENCE_LONG_EDGE,
};
use bg_remover::smoothing::{box_neighbours, gradient_neighbours};
use bg_remover::text::{decimal_string, hex_string, signed_decimal_string};
use bg_remover::{uuid_like_suffix, RemovalResult};

#[test]
fn decode_limit_accepts_exactly_the_maximum() {
    assert_eq!(MAX_DECODE_PIXELS, 60_000_000);
    assert!(check_decode_size(7500, 8000).is_ok());
    assert!(check_decode_size(60_000_000, 1).is_ok());
    assert!(check_decode_size(0, u32::MAX).is_ok());
    assert!(check_decode_size(1, 1).is_ok());
}

#[test]
fn decode_limit_refuses_larger_images_with_their_size() {
    match check_decode_size(7746, 7746) {
        Err(AppError::ImageTooLarge(s)) => assert_eq!(s, "7746x7746 exceeds the supported size"),
        _ => panic!("expected ImageTooLarge"),
    }
    match check_decode_size(60_000_001, 1) {
        Err(e) => assert_eq!(
            e.message(),
            "The image is too large to process on this system (60000001x1 exceeds the supported size)."
        ),
        Ok(()) => panic!("expected an error"),
    }
    match check_decode_size(u32::MAX, u32::MAX) {
        Err(AppError::ImageTooLarge(s)) => {
            assert_eq!(s, "4294967295x4294967295 exceeds the supported size")
        }
        _ => panic!("expected ImageTooLarge"),
    }
}

#[test]
fn error_texts() {
    assert_eq!(
        AppError::UnsupportedOrCorruptImage.message(),
        "Couldn't read that file. It may be corrupted or in an unsupported format."
    );
    assert_eq!(
        AppError::ModelUnavailable("anything".to_string()).message(),
        "The AI model could not be loaded. Try reinstalling the application."
    );
    assert_eq!(
        AppError::InferenceFailure("boom".to_string()).message(),
        "Background removal failed while running the AI model: boom"
    );
    assert_eq!(
        AppError::ExportFailure("preview missing".to_string()).message(),
        "Couldn't save the exported image: preview missing"
    );
    assert_eq!(
        AppError::OutOfMemory.message(),
        "Not enough memory available to process this image."
    );
    let io = std::io::Error::new(std::io::ErrorKind::Other, "disk full");
    assert_eq!(AppError::Io(io).message(), "I/O error: disk full");
}

#[test]
fn small_images_go_to_the_model_at_full_size_without_alpha() {
    let rgba = vec![1, 2, 3, 4, 5, 6, 7, 8];
    let (rgb, w, h) = inference_rgb(&rgba, 2, 1, 0, 0);
    assert_eq!((w, h), (2, 1));
    assert_eq!(rgb, vec![1, 2, 3, 5, 6, 7]);
}

#[test]
fn the_edge_limit_is_exclusive() {
    assert_eq!(MAX_INFERENCE_LONG_EDGE, 2048);
    assert!(!exceeds_inference_edge(2048, 2048));
    assert!(exceeds_inference_edge(2049, 1));
    assert!(exceeds_inference_edge(1, 2049));
    assert!(!exceeds_inference_edge(0, 0));
}

#[test]
fn large_images_are_scaled_down_for_the_model() {
    let (w, h) = (3000u32, 4u32);
    let rgba: Vec<u8> = (0..(w * h * 4)).map(|i| if i % 4 == 3 { 255 } else { 90 }).collect();
    let (rgb, sw, sh) = inference_rgb(&rgba, w, h, 2048, 3);
    assert_eq!((sw, sh), (2048, 3));
    assert_eq!(rgb.len(), 2048 * 3 * 3);
}

#[test]
fn composite_keeps_colour_and_takes_alpha_from_mask() {
    let original = vec![10, 20, 30, 255, 40, 50, 60, 0, 70, 80, 90, 128];
    let alpha = vec![0, 200, 255];
    let out = composite_rgba(&original, &alpha, 3, 1);
    assert_eq!(out, vec![10, 20, 30, 0, 40, 50, 60, 200, 70, 80, 90, 255]);
}

#[test]
fn composite_keeps_the_image_size() {
    let original = vec![7u8; 4 * 6];
    let alpha = vec![1u8; 6];
    let out = composite_rgba(&original, &alpha, 2, 3);
    assert_eq!(out.len(), 2 * 3 * 4);
    let empty = composite_rgba(&vec![], &vec![], 0, 5);
    assert!(empty.is_empty());
}

#[test]
fn model_input_is_resampled_to_the_model_size() {
    assert_eq!(MODEL_INPUT_SIZE, 1024);
    let rgb = vec![0u8, 0, 0, 255, 255, 255, 0, 0, 0, 255, 255, 255];
    let input = model_input_rgb(&rgb, 2, 2);
    assert_eq!(input.len(), 1024 * 1024 * 3);
    let same = model_input_rgb(&vec![3u8; 1024 * 1024 * 3], 1024, 1024);
    assert_eq!(same, vec![3u8; 1024 * 1024 * 3]);
}

#[test]
fn output_shape_of_model_size_is_accepted() {
    assert!(check_output_shape(&[1, 1, 1024, 1024]).is_ok());
    assert!(check_output_shape(&[1024, 1024]).is_ok());
}

#[test]
fn other_output_shapes_are_refused_with_the_shape() {
    match check_output_shape(&[1, 1, 512, 512]) {
        Err(AppError::InferenceFailure(s)) => assert_eq!(s, "unexpected output shape [1, 1, 512, 512]"),
        _ => panic!("expected InferenceFailure"),
    }
    match check_output_shape(&[-1, 1024]) {
        Err(e) => assert_eq!(
            e.message(),
            "Background removal failed while running the AI model: unexpected output shape [-1, 1024]"
        ),
        Ok(()) => panic!("expected an error"),
    }
    assert!(check_output_shape(&[1, 1, 1024, 1023]).is_err());
}

#[test]
fn lists_are_written_like_debug() {
    assert_eq!(debug_list_string(&[]), format!("{:?}", Vec::<i64>::new()));
    let v = vec![i64::MIN, -7, 0, 42, i64::MAX];
    assert_eq!(debug_list_string(&v), format!("{:?}", v));
}

#[test]
fn numbers_are_written_like_format() {
    for n in [0u64, 7, 10, 99, 1234567890, u64::MAX] {
        assert_eq!(decimal_string(n), format!("{}", n));
    }
    for v in [0i64, -1, 5, -1024, i64::MIN, i64::MAX] {
        assert_eq!(signed_decimal_string(v), format!("{}", v));
    }
    for t in [0u128, 9, 10, 15, 16, 255, 0xdead_beef, u128::MAX] {
        assert_eq!(hex_string(t), format!("{:x}", t));
    }
}

#[test]
fn thread_count_is_clamped() {
    assert_eq!(intra_thread_count(None), 4);
    assert_eq!(intra_thread_count(Some(1)), 2);
    assert_eq!(intra_thread_count(Some(2)), 2);
    assert_eq!(intra_thread_count(Some(6)), 6);
    assert_eq!(intra_thread_count(Some(8)), 8);
    assert_eq!(intra_thread_count(Some(64)), 8);
}

#[test]
fn a_loaded_model_is_reused() {
    assert!(matches!(engine_load_step(true, true), Ok(EngineStep::Ready)));
    assert!(matches!(engine_load_step(true, false), Ok(EngineStep::Ready)));
    assert!(matches!(engine_load_step(false, true), Ok(EngineStep::Load)));
    match engine_load_step(false, false) {
        Err(AppError::ModelUnavailable(s)) => assert_eq!(s, "model path not resolved"),
        _ => panic!("expected ModelUnavailable"),
    }
}

#[test]
fn preview_names() {
    assert_eq!(preview_file_name("1a2b"), "bgremover_preview_1a2b.png");
    assert_eq!(suffix_from_nanos(None), "0");
    assert_eq!(suffix_from_nanos(Some(255)), "ff");
    let s = uuid_like_suffix();
    assert!(!s.is_empty());
    assert!(s.chars().all(|c| c.is_ascii_hexdigit() && !c.is_ascii_uppercase()));
    let r = RemovalResult { preview_path: preview_file_name(&s), width: 3, height: 4 };
    assert!(r.preview_path.starts_with("bgremover_preview_"));
    assert_eq!((r.width, r.height), (3, 4));
}

#[test]
fn gradient_neighbours_fall_back_to_the_cell_at_borders() {
    assert_eq!(gradient_neighbours(0, 0, 3, 3), (0, 1, 0, 3));
    assert_eq!(gradient_neighbours(1, 1, 3, 3), (3, 5, 1, 7));
    assert_eq!(gradient_neighbours(2, 2, 3, 3), (7, 8, 5, 8));
    assert_eq!(gradient_neighbours(0, 0, 1, 1), (0, 0, 0, 0));
}

#[test]
fn box_neighbours_cover_the_block_inside_the_grid() {
    assert_eq!(box_neighbours(1, 1, 3, 3), vec![0, 1, 2, 3, 4, 5, 6, 7, 8]);
    assert_eq!(box_neighbours(0, 0, 3, 3), vec![0, 1, 3, 4]);
    assert_eq!(box_neighbours(2, 1, 3, 2), vec![1, 2, 4, 5]);
    assert_eq!(box_neighbours(0, 0, 1, 1), vec![0]);
}

