//! How a picture of the screen is had: which backends are tried, in which order, and what is made
//! of what they answer.

use vstd::prelude::*;
use vstd::string::StringExecFns;
use crate::ocr::model_manager::after_last;
use crate::ocr::model_manager::{
    file_name, last_place, law_a_path_ends_in_its_name, lemma_last_place_is, under,
};
use crate::picture::{Picture, load_picture};
use crate::picture::{can_load, content, picture_in};
use crate::png::begins_as_png;
use crate::text::count_text;
use crate::text::decimal_digits;

verus! {

/// A way to have a picture of the screen.
#[derive(Clone, Copy, Debug, PartialEq, Eq, Structural)]
pub enum Backend {
    /// The program `grim`, for wlroots compositors.
    Grim,
    /// The desktop portal, without asking the user.
    Portal,
    /// The companion extension of the GNOME shell.
    Extension,
    /// The program `gnome-screenshot`.
    GnomeScreenshot,
    /// The program `import` of ImageMagick.
    ImageMagick,
}

/// The backends in the order in which they are tried.
pub open spec fn backends() -> Seq<Backend> {
    seq![
        Backend::Grim,
        Backend::Portal,
        Backend::Extension,
        Backend::GnomeScreenshot,
        Backend::ImageMagick,
    ]
}

/// The backend that is tried when a number of them have failed.
pub fn capture_screen(failed: usize) -> (next: Option<Backend>)
    ensures
        next == (if failed < backends().len() {
            Some(backends()[failed as int])
        } else {
            None
        }),
{
    match failed {
        0 => Some(Backend::Grim),
        1 => Some(Backend::Portal),
        2 => Some(Backend::Extension),
        3 => Some(Backend::GnomeScreenshot),
        4 => Some(Backend::ImageMagick),
        _ => None,
    }
}

/// Every backend is tried, and none twice.
pub proof fn law_every_backend_is_tried_once(b: Backend)
    ensures
        backends().contains(b),
        backends().no_duplicates(),
{
    match b {
        Backend::Grim => assert(backends()[0] == b),
        Backend::Portal => assert(backends()[1] == b),
        Backend::Extension => assert(backends()[2] == b),
        Backend::GnomeScreenshot => assert(backends()[3] == b),
        Backend::ImageMagick => assert(backends()[4] == b),
    }
}

/// Why a backend gave no picture.
#[derive(Clone, Copy, Debug, PartialEq, Eq, Structural)]
pub enum CaptureError {
    /// The program or the extension failed.
    Failed,
    /// There was an answer, but no picture in it.
    Empty,
    /// What was answered cannot be read as a picture.
    Unreadable,
    /// There was no answer.
    NoResponse,
    /// The portal was cancelled or denied, with this code.
    Denied(u32),
}

/// Of what was answered, the picture: `bytes` are a PNG file that holds it, or no picture can be
/// read in them.
pub open spec fn is_reading(bytes: Seq<u8>, r: Result<Picture, CaptureError>) -> bool {
    match r {
        Ok(p) => begins_as_png(bytes) && can_load(bytes) && picture_in(bytes) == Some(content(p@))
            && p@.wf(),
        Err(e) => e is Unreadable && (!can_load(bytes) || picture_in(bytes) is None),
    }
}

/// The picture that a program or an extension answered with: there is one where it succeeded and
/// answered with bytes that can be read as one.
pub fn answered_picture(succeeded: bool, bytes: &[u8]) -> (r: Result<Picture, CaptureError>)
    ensures
        !succeeded ==> r == Err::<Picture, CaptureError>(CaptureError::Failed),
        succeeded && bytes@.len() == 0 ==> r == Err::<Picture, CaptureError>(CaptureError::Empty),
        succeeded && bytes@.len() > 0 ==> is_reading(bytes@, r),
{
    if !succeeded {
        return Err(CaptureError::Failed);
    }
    if bytes.len() == 0 {
        return Err(CaptureError::Empty);
    }
    match load_picture(bytes) {
        Ok(p) => Ok(p),
        Err(_) => Err(CaptureError::Unreadable),
    }
}

/// The name of a file says that it is a PNG file: what follows the last point, which does not
/// begin the name, is `png` or `apng`, in small or capital letters.
pub open spec fn is_png_name(path: Seq<u8>) -> bool {
    let name = file_name(path);
    let point = last_place(name, 46);
    point > 0 && (spells(name.skip(point + 1), seq![112u8, 110, 103]) || spells(
        name.skip(point + 1),
        seq![97u8, 112, 110, 103],
    ))
}

/// The letters are the given small ones, or their capitals.
pub open spec fn spells(s: Seq<u8>, small: Seq<u8>) -> bool {
    s.len() == small.len() && forall|i: int|
        0 <= i < s.len() ==> #[trigger] s[i] == small[i] || s[i] == small[i] - 32
}

fn ends_with(path: &Vec<u8>, from: usize, small: Vec<u8>) -> (r: bool)
    requires
        from <= path@.len(),
        forall|i: int| 0 <= i < small@.len() ==> small@[i] >= 32,
    ensures
        r == spells(path@.skip(from as int), small@),
{
    let ghost s = path@.skip(from as int);
    let all: usize = path.len();
    if all - from != small.len() {
        return false;
    }
    let mut i: usize = 0;
    while i < small.len()
        invariant
            i <= small@.len() == s.len(),
            from + s.len() == path@.len() == all,
            s == path@.skip(from as int),
            forall|k: int| 0 <= k < small@.len() ==> small@[k] >= 32,
            forall|k: int| 0 <= k < i ==> #[trigger] s[k] == small@[k] || s[k] == small@[k] - 32,
        decreases small@.len() - i,
    {
        let c: u8 = path[from + i];
        assert(c == s[i as int]);
        if c != small[i] && c != small[i] - 32 {
            return false;
        }
        i = i + 1;
    }
    true
}

/// The picture that a program or the portal left in a file, from the path and the bytes of the
/// file: there is one where the file has the name of a PNG file and can be read as one.
pub fn file_picture(path: &Vec<u8>, bytes: &[u8]) -> (r: Result<Picture, CaptureError>)
    ensures
        !is_png_name(path@) ==> r == Err::<Picture, CaptureError>(CaptureError::Unreadable),
        is_png_name(path@) ==> is_reading(bytes@, r),
{
    let start: usize = after_last(path, 0, 47);
    proof {
        assert(path@.skip(0) =~= path@);
    }
    let point: usize = after_last(path, start, 46);
    proof {
        let name = file_name(path@);
        assert(name =~= path@.skip(start as int));
        assert(name.skip(point - start) =~= path@.skip(point as int));
    }
    if point - start < 2 || !(ends_with(path, point, vec![112, 110, 103]) || ends_with(
        path,
        point,
        vec![97, 112, 110, 103],
    )) {
        return Err(CaptureError::Unreadable);
    }
    match load_picture(bytes) {
        Ok(p) => Ok(p),
        Err(_) => Err(CaptureError::Unreadable),
    }
}

/// The place of the picture that the portal answered with.
pub fn portal_uri(answer: Option<(u32, String)>) -> (r: Result<String, CaptureError>)
    ensures
        match answer {
            None => r == Err::<String, CaptureError>(CaptureError::NoResponse),
            Some(a) => if a.0 != 0 {
                r == Err::<String, CaptureError>(CaptureError::Denied(a.0))
            } else if a.1@.len() == 0 {
                r == Err::<String, CaptureError>(CaptureError::Empty)
            } else {
                r matches Ok(uri) && uri@ == a.1@
            },
        },
{
    match answer {
        None => Err(CaptureError::NoResponse),
        Some(a) => {
            if a.0 != 0 {
                return Err(CaptureError::Denied(a.0));
            }
            if a.1.as_str().is_empty() {
                return Err(CaptureError::Empty);
            }
            Ok(a.1)
        },
    }
}

/// The file that `gnome-screenshot` writes, up to the number of the process.
pub const GNOME_SCREENSHOT_FILE: &'static str = "/tmp/wayfrost_gs_";

/// The file that `import` writes, up to the number of the process.
pub const IMAGEMAGICK_FILE: &'static str = "/tmp/wayfrost_im_";

/// The file that a program writes for a process: a name, the number of the process in decimal
/// digits, and the extension of PNG files.
pub fn temporary_file(name: &str, process: u32) -> (r: String)
    ensures
        r@ == name@ + decimal_digits(process as nat) + seq!['.', 'p', 'n', 'g'],
{
    let digits: String = count_text(process);
    let mut r: String = name.to_string();
    r.append(digits.as_str());
    r.push('.');
    r.push('p');
    r.push('n');
    r.push('g');
    proof {
        assert(r@ =~= name@ + digits@ + seq!['.', 'p', 'n', 'g']);
    }
    r
}

/// A file is named as a PNG file where its name ends in a point and `png`, in any case, whatever its
/// directory, but not where nothing stands before the point.
pub proof fn law_png_files_are_known_by_their_names(dir: Seq<u8>, stem: Seq<u8>, e: Seq<u8>)
    requires
        !stem.contains(47),
        e.len() == 3,
        e[0] == 112 || e[0] == 80,
        e[1] == 110 || e[1] == 78,
        e[2] == 103 || e[2] == 71,
    ensures
        is_png_name(under(dir, stem.push(46) + e)) <==> stem.len() > 0,
{
    let name = stem.push(46) + e;
    assert(!name.contains(47)) by {
        if name.contains(47) {
            let k = choose|k: int| 0 <= k < name.len() && name[k] == 47;
            if k < stem.len() {
                assert(stem[k] == 47);
            } else if k > stem.len() {
                assert(e[k - stem.len() - 1] == 47);
            }
        }
    }
    law_a_path_ends_in_its_name(dir, name);
    assert forall|i: int| stem.len() < i < name.len() implies #[trigger] name[i] != 46 by {
        assert(name[i] == e[i - stem.len() - 1]);
    }
    lemma_last_place_is(name, 46, stem.len() as int);
    assert(name.skip(stem.len() as int + 1) =~= e);
    assert(spells(e, seq![112u8, 110, 103]));
}

} // verus!
