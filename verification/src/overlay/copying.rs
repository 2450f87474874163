//! Which text is copied.

use vstd::prelude::*;
use vstd::utf8::{
    decode_utf8, decode_utf8_encode_utf8, decode_utf8_split, encode_utf8, encode_utf8_decode_utf8,
    encode_utf8_valid_utf8, is_char_boundary, is_char_boundary_start_end_of_seq, valid_utf8,
    valid_utf8_split,
};
use crate::ocr::pipeline::{join_all, join_words};
use crate::ocr::pipeline::{joined_text, ref_views};
use crate::ocr::words::{DetectedWord, Frame};
use crate::ocr::words::{Word, views};
use crate::overlay::selection::lies_outside;
use crate::overlay::selection::is_outside;
use crate::overlay::state::{CropRect, Overlay, find_crop, join_picked};
use crate::overlay::state::{Scene, crop_of, picked, text_view};
use crate::text::trim;
use crate::text::trimmed;

verus! {

/// Texts longer than this many bytes are shown in part.
pub const PREVIEW_BYTES: usize = 60;

/// The words that do not lie outside a region.
pub open spec fn words_touching(words: Seq<Word>, region: Frame) -> Seq<Word> {
    words.filter(|w: Word| !is_outside(w.frame, region))
}

/// The text of the words that do not lie outside a region, if there are any.
pub open spec fn text_touching(words: Seq<Word>, region: Frame) -> Option<Seq<char>> {
    if words_touching(words, region).len() > 0 {
        Some(joined_text(words_touching(words, region)))
    } else {
        None
    }
}

/// What is copied.
#[derive(Debug)]
pub enum CopyPlan {
    /// This text.
    Text(String),
    /// The text that is read in a part of the picture.
    Read(CropRect),
}

/// What is copied, as a mathematical value.
pub enum Plan {
    Text(Seq<char>),
    Read(CropRect),
}

impl View for CopyPlan {
    type V = Plan;

    open spec fn view(&self) -> Plan {
        match self {
            CopyPlan::Text(s) => Plan::Text(s@),
            CopyPlan::Read(crop) => Plan::Read(*crop),
        }
    }
}

/// What is copied: the text that was selected last; else the words that are selected; else the
/// words of the framed region, which are read where none are known; else, where nothing is
/// framed, all words.
pub open spec fn plan_of(v: Scene) -> Plan {
    let kept = match v.cached {
        Some(t) => t,
        None => Seq::empty(),
    };
    let chosen = picked(v.words, v.selected);
    if trimmed(kept).len() > 0 {
        Plan::Text(kept)
    } else if chosen.len() > 0 {
        Plan::Text(joined_text(chosen))
    } else if let Some(region) = v.locked {
        let inside = words_touching(v.words, region);
        if inside.len() > 0 {
            Plan::Text(joined_text(inside))
        } else if v.pictured {
            Plan::Read(crop_of(region, v.size))
        } else {
            Plan::Text(kept)
        }
    } else if v.words.len() > 0 {
        Plan::Text(joined_text(v.words))
    } else {
        Plan::Text(kept)
    }
}

/// Joins the words that do not lie outside a region, if there are any.
pub fn join_touching(words: &Vec<DetectedWord>, region: Frame) -> (r: Option<String>)
    ensures
        text_view(r) == text_touching(views(words@), region),
{
    let mut refs: Vec<&DetectedWord> = Vec::new();
    let ghost v = views(words@);
    let ghost inside = |w: Word| !is_outside(w.frame, region);
    let mut i: usize = 0;
    proof {
        reveal(Seq::filter);
        assert(v.take(0) =~= Seq::<Word>::empty());
        assert(ref_views(refs@) =~= v.take(0).filter(inside));
    }
    while i < words.len()
        invariant
            i <= words@.len(),
            v == views(words@),
            inside == (|w: Word| !is_outside(w.frame, region)),
            ref_views(refs@) == v.take(i as int).filter(inside),
        decreases words@.len() - i,
    {
        let ghost before = refs@;
        proof {
            reveal(Seq::filter);
            assert(v.take(i + 1).drop_last() =~= v.take(i as int));
            assert(v.take(i + 1).last() == words@[i as int]@);
        }
        if !lies_outside(words[i].frame(), region) {
            refs.push(&words[i]);
            proof {
                assert(ref_views(refs@) =~= ref_views(before).push(words@[i as int]@));
            }
        }
        i = i + 1;
    }
    proof {
        assert(v.take(i as int) =~= v);
        assert(refs@.len() == ref_views(refs@).len());
    }
    if refs.len() > 0 {
        Some(join_words(refs.as_slice()))
    } else {
        None
    }
}

impl Overlay {
    /// What is copied.
    pub fn copy_plan(&self) -> (plan: CopyPlan)
        ensures
            plan@ == plan_of(self@),
    {
        let kept: String = match &self.cached {
            Some(t) => t.clone(),
            None => String::new(),
        };
        proof {
            assert(self.cached is None ==> kept@ =~= Seq::<char>::empty());
        }
        if !trim(kept.as_str()).as_str().is_empty() {
            return CopyPlan::Text(kept);
        }
        if let Some(text) = join_picked(&self.words, &self.selected) {
            return CopyPlan::Text(text);
        }
        match self.locked {
            Some(region) => match join_touching(&self.words, region) {
                Some(text) => CopyPlan::Text(text),
                None => if self.pictured {
                    CopyPlan::Read(find_crop(region, self.size))
                } else {
                    CopyPlan::Text(kept)
                },
            },
            None => if self.words.len() > 0 {
                CopyPlan::Text(join_all(&self.words))
            } else {
                CopyPlan::Text(kept)
            },
        }
    }
}

/// The greatest place up to `i` at which bytes of text can be cut: no character lies on both
/// sides of it.
pub open spec fn cut_at(bytes: Seq<u8>, i: nat) -> nat
    decreases i,
{
    if i == 0 || is_char_boundary(bytes, i as int) {
        i
    } else {
        cut_at(bytes, (i - 1) as nat)
    }
}

/// What is shown of a text: the text itself, or three points after as many whole characters as
/// its first sixty bytes hold.
pub open spec fn preview_of(t: Seq<char>) -> Seq<char> {
    let bytes = encode_utf8(t);
    if bytes.len() > PREVIEW_BYTES {
        decode_utf8(bytes.take(cut_at(bytes, PREVIEW_BYTES as nat) as int)) + seq!['.', '.', '.']
    } else {
        t
    }
}

proof fn lemma_cut(bytes: Seq<u8>, i: nat)
    requires
        valid_utf8(bytes),
    ensures
        is_char_boundary(bytes, cut_at(bytes, i) as int),
        cut_at(bytes, i) <= i,
        forall|k: int| cut_at(bytes, i) < k <= i ==> !#[trigger] is_char_boundary(bytes, k),
    decreases i,
{
    if i == 0 {
        is_char_boundary_start_end_of_seq(bytes);
    } else if !is_char_boundary(bytes, i as int) {
        lemma_cut(bytes, (i - 1) as nat);
    }
}

/// What is shown of a long text is its beginning: whole characters that fit in sixty bytes, and
/// three points. No character more would fit.
pub proof fn law_a_preview_begins_the_text(t: Seq<char>)
    requires
        encode_utf8(t).len() > PREVIEW_BYTES,
    ensures
        exists|n: int|
            0 <= n <= t.len() && #[trigger] encode_utf8(t.take(n)).len() <= PREVIEW_BYTES
                && preview_of(t) == t.take(n) + seq!['.', '.', '.'] && forall|k: int|
                encode_utf8(t.take(n)).len() < k <= PREVIEW_BYTES ==> !#[trigger] is_char_boundary(
                    encode_utf8(t),
                    k,
                ),
{
    let bytes = encode_utf8(t);
    let cut = cut_at(bytes, PREVIEW_BYTES as nat) as int;
    encode_utf8_valid_utf8(t);
    encode_utf8_decode_utf8(t);
    lemma_cut(bytes, PREVIEW_BYTES as nat);
    let head = bytes.subrange(0, cut);
    let tail = bytes.subrange(cut, bytes.len() as int);
    assert(head =~= bytes.take(cut));
    valid_utf8_split(bytes, cut);
    decode_utf8_split(bytes, cut);
    let n = decode_utf8(head).len() as int;
    assert(t.take(n) =~= decode_utf8(head));
    decode_utf8_encode_utf8(head);
    assert(encode_utf8(t.take(n)).len() == cut);
}

/// What is done with text that is to be copied.
#[derive(Debug)]
pub enum CopyEnd {
    /// The text is put on the clipboard, and the preview is announced.
    Copied { text: String, preview: String },
    /// It is announced that no text was found.
    Nothing,
}

/// What is done with the text that is copied. The blanks around it are dropped.
pub fn finish_copy(text: &str) -> (r: CopyEnd)
    ensures
        match r {
            CopyEnd::Copied { text: t, preview } => t@ == trimmed(text@) && t@.len() > 0
                && preview@ == preview_of(t@),
            CopyEnd::Nothing => trimmed(text@).len() == 0,
        },
{
    let shown: String = trim(text);
    if shown.as_str().is_empty() {
        return CopyEnd::Nothing;
    }
    let bytes: &[u8] = shown.as_str().as_bytes();
    if bytes.len() > PREVIEW_BYTES {
        let ghost all = encode_utf8(shown@);
        let mut cut: usize = PREVIEW_BYTES;
        proof {
            encode_utf8_valid_utf8(shown@);
        }
        while cut > 0 && !shown.as_str().is_char_boundary(cut)
            invariant
                cut <= PREVIEW_BYTES,
                all == encode_utf8(shown@),
                cut_at(all, cut as nat) == cut_at(all, PREVIEW_BYTES as nat),
            decreases cut,
        {
            cut = cut - 1;
        }
        proof {
            is_char_boundary_start_end_of_seq(all);
        }
        let parts: (&str, &str) = shown.as_str().split_at(cut);
        let mut preview: String = parts.0.to_string();
        let ghost head = preview@;
        preview.push('.');
        preview.push('.');
        preview.push('.');
        proof {
            encode_utf8_decode_utf8(head);
            assert(encode_utf8(head) =~= all.take(cut as int));
            assert(preview@ =~= head + seq!['.', '.', '.']);
        }
        CopyEnd::Copied { text: shown, preview }
    } else {
        let preview: String = shown.clone();
        CopyEnd::Copied { text: shown, preview }
    }
}

/// A text of up to sixty bytes is shown as it is, and a longer one is not.
pub proof fn law_short_texts_are_shown_whole(t: Seq<char>)
    ensures
        encode_utf8(t).len() <= 60 ==> preview_of(t) == t,
        encode_utf8(t).len() > 60 ==> exists|n: int|
            0 <= n <= t.len() && #[trigger] encode_utf8(t.take(n)).len() <= 60 && preview_of(t)
                == t.take(n) + seq!['.', '.', '.'],
{
    if encode_utf8(t).len() > 60 {
        law_a_preview_begins_the_text(t);
    }
}

} // verus!
