use wayfrost::ai_manager::get_available_models;
use wayfrost::constants;
use wayfrost::ocr::model_manager::{ensure_models, get_models_dir, is_missing, join_path, partial_path, SetupStep};

#[test]
fn offers_two_models() {
    assert_eq!(get_available_models(), vec!["llava:7b".to_string(), "moondream:latest".to_string()]);
}

#[test]
fn joins_paths() {
    assert_eq!(join_path(&b"/home/a".to_vec(), "b"), b"/home/a/b".to_vec());
    assert_eq!(join_path(&b"/home/a/".to_vec(), "b"), b"/home/a/b".to_vec());
    assert_eq!(join_path(&Vec::new(), "b"), b"b".to_vec());
    assert_eq!(join_path(&vec![0xff], "b"), vec![0xff, b'/', b'b']);
    assert_eq!(get_models_dir(&b"/data/wayfrost".to_vec()), b"/data/wayfrost/models".to_vec());
}

#[test]
fn downloads_files_that_are_missing_or_short() {
    assert!(is_missing(None));
    assert!(is_missing(Some(0)));
    assert!(is_missing(Some(1024)));
    assert!(!is_missing(Some(1025)));
}

#[test]
fn keeps_unfinished_downloads_apart() {
    let partial = |p: &str| String::from_utf8(partial_path(&p.as_bytes().to_vec())).unwrap();
    for p in ["/m/latin_rec.onnx", "/m/latin_dict.txt", "a.b/c", "/x/.hidden", "/x/.a.b", "plain", "two.dots.end", "/d.e/f."] {
        let expected = std::path::Path::new(p).with_extension(constants::PARTIAL_EXTENSION);
        assert_eq!(partial(p), expected.to_str().unwrap(), "{}", p);
    }
}

#[test]
fn plans_the_setup_of_the_models() {
    let setup = ensure_models(&b"/m".to_vec());
    assert_eq!(setup.paths.det_model, b"/m/ch_PP-OCRv4_det_infer.onnx".to_vec());
    assert_eq!(setup.paths.rec_model, b"/m/latin_rec.onnx".to_vec());
    assert_eq!(setup.paths.dict_file, b"/m/latin_dict.txt".to_vec());
    assert_eq!(setup.paths.clone().dict_file, setup.paths.dict_file);
    let mut shown = Vec::new();
    for step in &setup.steps {
        shown.push(match step {
            SetupStep::Fetch { url, file, required } => {
                format!("{} {} {}", url, String::from_utf8_lossy(file), required)
            }
            SetupStep::MakeDir { dir } => format!("dir {}", String::from_utf8_lossy(dir)),
            SetupStep::CopyConfigs { to } => format!("configs {}", String::from_utf8_lossy(to)),
        });
    }
    assert_eq!(
        shown,
        vec![
            format!("{} /m/ch_PP-OCRv4_det_infer.onnx true", constants::DET_MODEL_URL),
            format!("{} /m/latin_rec.onnx true", constants::REC_MODEL_URL),
            format!("{} /m/latin_dict.txt true", constants::KEYS_DICT_URL),
            "dir /m/tessdata".to_string(),
            format!("{} /m/tessdata/tur.traineddata false", constants::TURKISH_DATA_URL),
            format!("{} /m/tessdata/eng.traineddata false", constants::ENGLISH_DATA_URL),
            "configs /m/tessdata/configs".to_string(),
        ]
    );
}

#[test]
fn names_the_program() {
    assert_eq!(constants::APP_ID, "org.wayfrost.Wayfrost");
    assert_eq!(constants::APP_NAME, "Wayfrost");
    assert_eq!(f64::from_bits(constants::MIN_SELECTION_AREA_PIXELS), 64.0);
}
