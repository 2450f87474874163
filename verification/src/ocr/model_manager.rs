//! Which files the models are kept in, and which of them have to be downloaded.
//!
//! A path is a sequence of bytes, as the system has it.

use vstd::prelude::*;
use vstd::utf8::encode_utf8;
use crate::constants::{
    CONFIGS_SUBDIR, DET_MODEL_FILENAME, DET_MODEL_URL, ENGLISH_DATA_FILENAME, ENGLISH_DATA_URL,
    KEYS_DICT_FILENAME, KEYS_DICT_URL, MODELS_SUBDIR, PARTIAL_EXTENSION, REC_MODEL_FILENAME, REC_MODEL_URL, TESSDATA_SUBDIR,
    TURKISH_DATA_FILENAME, TURKISH_DATA_URL,
};

verus! {

/// The files that the recognition engine is made from.
#[derive(Debug)]
pub struct ModelPaths {
    pub det_model: Vec<u8>,
    pub rec_model: Vec<u8>,
    pub dict_file: Vec<u8>,
}

impl Clone for ModelPaths {
    fn clone(&self) -> (r: ModelPaths)
        ensures
            r.det_model@ == self.det_model@,
            r.rec_model@ == self.rec_model@,
            r.dict_file@ == self.dict_file@,
    {
        ModelPaths {
            det_model: self.det_model.clone(),
            rec_model: self.rec_model.clone(),
            dict_file: self.dict_file.clone(),
        }
    }
}

/// A file or directory under a directory.
pub open spec fn under(dir: Seq<u8>, name: Seq<u8>) -> Seq<u8> {
    if dir.len() == 0 || dir.last() == 47 {
        dir + name
    } else {
        dir.push(47) + name
    }
}

/// The bytes of a name.
pub open spec fn bytes_of(name: &str) -> Seq<u8> {
    encode_utf8(name@)
}

/// The path of a relative name under a directory.
pub fn join_path(dir: &Vec<u8>, name: &str) -> (path: Vec<u8>)
    ensures
        path@ == under(dir@, bytes_of(name)),
{
    let mut path: Vec<u8> = dir.clone();
    let n: usize = path.len();
    if n > 0 && path[n - 1] != 47 {
        path.push(47);
    }
    let ghost head = path@;
    let bytes: &[u8] = name.as_bytes();
    let mut i: usize = 0;
    proof {
        assert(path@ =~= head + bytes@.take(0));
    }
    while i < bytes.len()
        invariant
            i <= bytes@.len(),
            path@ == head + bytes@.take(i as int),
        decreases bytes@.len() - i,
    {
        path.push(bytes[i]);
        i = i + 1;
        proof {
            assert(path@ =~= head + bytes@.take(i as int));
        }
    }
    proof {
        assert(bytes@.take(i as int) =~= bytes@);
    }
    path
}

/// The files that the recognition engine is made from, in the directory of the models.
pub fn model_paths(dir: &Vec<u8>) -> (paths: ModelPaths)
    ensures
        paths.det_model@ == under(dir@, bytes_of(DET_MODEL_FILENAME)),
        paths.rec_model@ == under(dir@, bytes_of(REC_MODEL_FILENAME)),
        paths.dict_file@ == under(dir@, bytes_of(KEYS_DICT_FILENAME)),
{
    ModelPaths {
        det_model: join_path(dir, DET_MODEL_FILENAME),
        rec_model: join_path(dir, REC_MODEL_FILENAME),
        dict_file: join_path(dir, KEYS_DICT_FILENAME),
    }
}

/// The directory of the models, in the directory that data is kept under.
pub fn get_models_dir(data_home: &Vec<u8>) -> (dir: Vec<u8>)
    ensures
        dir@ == under(data_home@, bytes_of(MODELS_SUBDIR)),
{
    join_path(data_home, MODELS_SUBDIR)
}

/// A step of making the models ready.
#[derive(Debug)]
pub enum SetupStep {
    /// Get a file, unless it is there. Where it is required, failing ends the setup.
    Fetch { url: &'static str, file: Vec<u8>, required: bool },
    /// Make a directory; failing is passed over.
    MakeDir { dir: Vec<u8> },
    /// Copy the configurations of the system to a directory that is not there yet; failing is
    /// passed over.
    CopyConfigs { to: Vec<u8> },
}

/// A step of making the models ready, as a mathematical value.
pub enum Step {
    Fetch { url: Seq<char>, file: Seq<u8>, required: bool },
    MakeDir { dir: Seq<u8> },
    CopyConfigs { to: Seq<u8> },
}

impl View for SetupStep {
    type V = Step;

    open spec fn view(&self) -> Step {
        match self {
            SetupStep::Fetch { url, file, required } => Step::Fetch {
                url: url@,
                file: file@,
                required: *required,
            },
            SetupStep::MakeDir { dir } => Step::MakeDir { dir: dir@ },
            SetupStep::CopyConfigs { to } => Step::CopyConfigs { to: to@ },
        }
    }
}

pub open spec fn steps_view(steps: Seq<SetupStep>) -> Seq<Step> {
    Seq::new(steps.len(), |i: int| steps[i]@)
}

/// The steps of making the models ready: the files of the engine, which are required, then
/// the trained data, which is not.
pub open spec fn setup_of(dir: Seq<u8>) -> Seq<Step> {
    let data = under(dir, bytes_of(TESSDATA_SUBDIR));
    seq![
        Step::Fetch {
            url: DET_MODEL_URL@,
            file: under(dir, bytes_of(DET_MODEL_FILENAME)),
            required: true,
        },
        Step::Fetch {
            url: REC_MODEL_URL@,
            file: under(dir, bytes_of(REC_MODEL_FILENAME)),
            required: true,
        },
        Step::Fetch {
            url: KEYS_DICT_URL@,
            file: under(dir, bytes_of(KEYS_DICT_FILENAME)),
            required: true,
        },
        Step::MakeDir { dir: data },
        Step::Fetch {
            url: TURKISH_DATA_URL@,
            file: under(data, bytes_of(TURKISH_DATA_FILENAME)),
            required: false,
        },
        Step::Fetch {
            url: ENGLISH_DATA_URL@,
            file: under(data, bytes_of(ENGLISH_DATA_FILENAME)),
            required: false,
        },
        Step::CopyConfigs { to: under(data, bytes_of(CONFIGS_SUBDIR)) },
    ]
}

/// The models, and what has to be done to have them.
#[derive(Debug)]
pub struct ModelSetup {
    pub paths: ModelPaths,
    pub steps: Vec<SetupStep>,
}

/// Which files the engine is made from, and the steps that make them ready.
pub fn ensure_models(dir: &Vec<u8>) -> (setup: ModelSetup)
    ensures
        setup.paths.det_model@ == under(dir@, bytes_of(DET_MODEL_FILENAME)),
        setup.paths.rec_model@ == under(dir@, bytes_of(REC_MODEL_FILENAME)),
        setup.paths.dict_file@ == under(dir@, bytes_of(KEYS_DICT_FILENAME)),
        steps_view(setup.steps@) == setup_of(dir@),
{
    let paths: ModelPaths = model_paths(dir);
    let data: Vec<u8> = join_path(dir, TESSDATA_SUBDIR);
    let mut steps: Vec<SetupStep> = Vec::new();
    steps.push(
        SetupStep::Fetch { url: DET_MODEL_URL, file: paths.det_model.clone(), required: true },
    );
    steps.push(
        SetupStep::Fetch { url: REC_MODEL_URL, file: paths.rec_model.clone(), required: true },
    );
    steps.push(
        SetupStep::Fetch { url: KEYS_DICT_URL, file: paths.dict_file.clone(), required: true },
    );
    steps.push(SetupStep::MakeDir { dir: data.clone() });
    steps.push(
        SetupStep::Fetch {
            url: TURKISH_DATA_URL,
            file: join_path(&data, TURKISH_DATA_FILENAME),
            required: false,
        },
    );
    steps.push(
        SetupStep::Fetch {
            url: ENGLISH_DATA_URL,
            file: join_path(&data, ENGLISH_DATA_FILENAME),
            required: false,
        },
    );
    steps.push(SetupStep::CopyConfigs { to: join_path(&data, CONFIGS_SUBDIR) });
    proof {
        assert(steps_view(steps@) =~= setup_of(dir@));
    }
    ModelSetup { paths, steps }
}

/// Whether a file has to be downloaded: it is not there, or too short to be whole.
pub fn is_missing(length: Option<u64>) -> (r: bool)
    ensures
        r == !(length matches Some(n) && n > 1024),
{
    match length {
        Some(n) => n <= 1024,
        None => true,
    }
}

/// The place of the last occurrence of a byte, or -1 where there is none.
pub open spec fn last_place(s: Seq<u8>, b: u8) -> int
    decreases s.len(),
{
    if s.len() == 0 {
        -1
    } else if s.last() == b {
        s.len() - 1
    } else {
        last_place(s.drop_last(), b)
    }
}

/// The name of a file: what follows the last slash of its path.
pub open spec fn file_name(path: Seq<u8>) -> Seq<u8> {
    path.skip(last_place(path, 47) + 1)
}

/// The path with another extension: what follows the last point of the name is replaced,
/// unless the name begins with that point or has none.
pub open spec fn with_extension(path: Seq<u8>, extension: Seq<u8>) -> Seq<u8> {
    let name = file_name(path);
    let point = last_place(name, 46);
    let stem = if point > 0 {
        path.take(path.len() - name.len() + point)
    } else {
        path
    };
    stem.push(46) + extension
}

proof fn lemma_last_place(s: Seq<u8>, b: u8)
    ensures
        -1 <= last_place(s, b) < s.len(),
        last_place(s, b) >= 0 ==> s[last_place(s, b)] == b,
        forall|i: int| last_place(s, b) < i < s.len() ==> #[trigger] s[i] != b,
    decreases s.len(),
{
    if s.len() > 0 && s.last() != b {
        lemma_last_place(s.drop_last(), b);
        assert forall|i: int| last_place(s, b) < i < s.len() implies #[trigger] s[i] != b by {
            if i < s.len() - 1 {
                assert(s.drop_last()[i] == s[i]);
            }
        }
    }
}

/// The last place of a byte, known by what stands there and behind it.
pub proof fn lemma_last_place_is(s: Seq<u8>, b: u8, p: int)
    requires
        -1 <= p < s.len(),
        p >= 0 ==> s[p] == b,
        forall|i: int| p < i < s.len() ==> #[trigger] s[i] != b,
    ensures
        last_place(s, b) == p,
{
    lemma_last_place(s, b);
    let q = last_place(s, b);
    if q < p {
        assert(s[p] != b);
    } else if p < q {
        assert(s[q] != b);
    }
}

/// The place after the last occurrence of a byte in a part of a path, its start where there is
/// none.
pub(crate) fn after_last(path: &Vec<u8>, from: usize, b: u8) -> (r: usize)
    requires
        from <= path@.len(),
    ensures
        from <= r <= path@.len(),
        r - from - 1 == last_place(path@.skip(from as int), b),
{
    let ghost part = path@.skip(from as int);
    let mut i: usize = path.len();
    while i > from && path[i - 1] != b
        invariant
            from <= i <= path@.len(),
            part == path@.skip(from as int),
            forall|k: int| i - from <= k < part.len() ==> #[trigger] part[k] != b,
        decreases i,
    {
        i = i - 1;
    }
    proof {
        if i > from {
            assert(part[i - from - 1] == path@[i - 1]);
        }
        lemma_last_place_is(part, b, i - from - 1);
    }
    i
}

/// Where a file is kept while it is being downloaded.
pub fn partial_path(path: &Vec<u8>) -> (r: Vec<u8>)
    requires
        file_name(path@).len() > 0,
        file_name(path@) != seq![46u8],
        file_name(path@) != seq![46u8, 46u8],
    ensures
        r@ == with_extension(path@, bytes_of(PARTIAL_EXTENSION)),
{
    let start: usize = after_last(path, 0, 47);
    proof {
        assert(path@.skip(0) =~= path@);
    }
    let point: usize = after_last(path, start, 46);
    let end: usize = if point > start && point - start > 1 {
        point - 1
    } else {
        path.len()
    };
    let mut r: Vec<u8> = Vec::new();
    let mut i: usize = 0;
    proof {
        assert(r@ =~= path@.take(0));
    }
    while i < end
        invariant
            i <= end <= path@.len(),
            r@ == path@.take(i as int),
        decreases end - i,
    {
        r.push(path[i]);
        i = i + 1;
        proof {
            assert(r@ =~= path@.take(i as int));
        }
    }
    r.push(46);
    let ghost head = r@;
    let bytes: &[u8] = PARTIAL_EXTENSION.as_bytes();
    let mut k: usize = 0;
    proof {
        assert(r@ =~= head + bytes@.take(0));
        assert(path@.take(path@.len() as int) =~= path@);
    }
    while k < bytes.len()
        invariant
            k <= bytes@.len(),
            r@ == head + bytes@.take(k as int),
        decreases bytes@.len() - k,
    {
        r.push(bytes[k]);
        k = k + 1;
        proof {
            assert(r@ =~= head + bytes@.take(k as int));
        }
    }
    proof {
        assert(bytes@.take(k as int) =~= bytes@);
    }
    r
}

/// A name under a directory is the name of the file that its path leads to, and the path begins
/// with that of the directory.
pub proof fn law_a_path_ends_in_its_name(dir: Seq<u8>, name: Seq<u8>)
    requires
        !name.contains(47),
    ensures
        file_name(under(dir, name)) == name,
        under(dir, name).take(dir.len() as int) == dir,
        dir.len() > 0 ==> under(dir, name)[under(dir, name).len() - name.len() - 1] == 47,
        under(dir, name).len() <= dir.len() + 1 + name.len(),
{
    let path = under(dir, name);
    let at = path.len() - name.len() - 1;
    assert forall|i: int| at < i < path.len() implies #[trigger] path[i] != 47 by {
        assert(path[i] == name[i - at - 1]);
        assert(!name.contains(47));
    }
    lemma_last_place_is(path, 47, at);
    assert(path.skip(at + 1) =~= name);
    assert(path.take(dir.len() as int) =~= dir);
}

/// Another extension takes the place of what follows the last point of a name, and is put behind a
/// name without a point; the directory stays.
pub proof fn law_an_extension_is_put_in_place(
    dir: Seq<u8>,
    stem: Seq<u8>,
    old: Seq<u8>,
    extension: Seq<u8>,
)
    requires
        !stem.contains(47),
        !old.contains(47),
        !old.contains(46),
        stem.len() > 0,
    ensures
        with_extension(under(dir, stem.push(46) + old), extension) == under(
            dir,
            stem.push(46) + extension,
        ),
        !stem.contains(46) ==> with_extension(under(dir, stem), extension) == under(
            dir,
            stem.push(46) + extension,
        ),
{
    let name = stem.push(46) + old;
    let goal = under(dir, stem.push(46) + extension);
    assert(!name.contains(47)) by {
        if name.contains(47) {
            let k = choose|k: int| 0 <= k < name.len() && name[k] == 47;
            if k < stem.len() {
                assert(stem[k] == 47);
            } else {
                assert(old[k - stem.len() - 1] == 47);
            }
        }
    }
    law_a_path_ends_in_its_name(dir, name);
    assert forall|i: int| stem.len() < i < name.len() implies #[trigger] name[i] != 46 by {
        assert(name[i] == old[i - stem.len() - 1]);
    }
    lemma_last_place_is(name, 46, stem.len() as int);
    let path = under(dir, name);
    assert(path.take(path.len() - name.len() + stem.len()).push(46) + extension =~= goal);
    if !stem.contains(46) {
        law_a_path_ends_in_its_name(dir, stem);
        assert forall|i: int| -1 < i < stem.len() implies #[trigger] stem[i] != 46 by {}
        lemma_last_place_is(stem, 46, -1);
        assert(under(dir, stem).push(46) + extension =~= goal);
    }
}

} // verus!
