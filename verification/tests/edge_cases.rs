use wayfrost::float::F32;
use wayfrost::ocr::pipeline::OcrEngine;
use wayfrost::ocr::recognition::LineScores;
use wayfrost::picture::{Picture, PixelFormat};

fn rgb(width: u32, height: u32) -> Picture {
    Picture {
        format: PixelFormat::Rgb8,
        width,
        height,
        samples: vec![0; (width * height * 3) as usize],
    }
}

#[test]
fn test_zero_and_tiny_crops() {
    let engine = OcrEngine::new(vec!["a".to_string(), "b".to_string()]);

    // 0x0 image
    let empty_img = rgb(0, 0);
    let answer = LineScores { steps: 0, classes: 0, scores: Vec::new() };
    let (text, score) = engine.recognize_line(&empty_img, &answer);
    assert_eq!(text, "");
    assert_eq!(score, F32 { bits: 0.0f32.to_bits() });

    // 1x1 image
    let tiny_img = rgb(1, 1);
    let text = engine.recognize_image(&tiny_img, &Vec::new());
    assert_eq!(text, "");

    // 3x3 image
    let tiny_img2 = rgb(3, 3);
    let text = engine.recognize_image(&tiny_img2, &Vec::new());
    assert_eq!(text, "");
}
