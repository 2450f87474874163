//! Values that do not change anywhere in the program.

use vstd::prelude::*;

verus! {

/// The identity of the program, for GTK and the desktop entry.
pub const APP_ID: &'static str = "org.wayfrost.Wayfrost";

pub const APP_NAME: &'static str = "Wayfrost";

/// The directory that models are kept under.
pub const CACHE_DIR_NAME: &'static str = "wayfrost";

/// The directory of the models in it.
pub const MODELS_SUBDIR: &'static str = "models";

/// Where the detection model comes from.
pub const DET_MODEL_URL: &'static str = "https://huggingface.co/SWHL/RapidOCR/resolve/main/PP-OCRv4/ch_PP-OCRv4_det_infer.onnx";

/// Where the recognition model comes from.
pub const REC_MODEL_URL: &'static str = "https://huggingface.co/monkt/paddleocr-onnx/resolve/main/languages/latin/rec.onnx";

/// Where the dictionary of the recognition model comes from.
pub const KEYS_DICT_URL: &'static str = "https://huggingface.co/monkt/paddleocr-onnx/raw/main/languages/latin/dict.txt";

/// Where the trained data for Turkish comes from.
pub const TURKISH_DATA_URL: &'static str = "https://github.com/tesseract-ocr/tessdata_best/raw/main/tur.traineddata";

/// Where the trained data for English comes from.
pub const ENGLISH_DATA_URL: &'static str = "https://github.com/tesseract-ocr/tessdata_best/raw/main/eng.traineddata";

pub const DET_MODEL_FILENAME: &'static str = "ch_PP-OCRv4_det_infer.onnx";

pub const REC_MODEL_FILENAME: &'static str = "latin_rec.onnx";

pub const KEYS_DICT_FILENAME: &'static str = "latin_dict.txt";

/// The directory of the trained data among the models.
pub const TESSDATA_SUBDIR: &'static str = "tessdata";

pub const TURKISH_DATA_FILENAME: &'static str = "tur.traineddata";

pub const ENGLISH_DATA_FILENAME: &'static str = "eng.traineddata";

/// The directory of configurations among the trained data.
pub const CONFIGS_SUBDIR: &'static str = "configs";

/// Where the system keeps its configurations.
pub const SYSTEM_CONFIGS: &'static str = "/usr/share/tessdata/configs";

/// The extension of files that are being downloaded.
pub const PARTIAL_EXTENSION: &'static str = "download";

/// The least area that can be selected, in pixels, so that a mere click reads no text; as
/// bits of a 64-bit number: 64.
pub const MIN_SELECTION_AREA_PIXELS: u64 = 0x4050_0000_0000_0000;

} // verus!
