//! The models that can be asked about a picture.

use vstd::prelude::*;

verus! {

/// The names of the models on offer.
pub fn get_available_models() -> (models: Vec<String>)
    ensures
        models@.len() == 2,
        models@[0]@ == "llava:7b"@,
        models@[1]@ == "moondream:latest"@,
{
    vec!["llava:7b".to_string(), "moondream:latest".to_string()]
}

} // verus!
