//! Texts as sequences of grapheme clusters, as `unicode_segmentation` splits them.

use vstd::prelude::*;
use vstd::string::StringExecFns;
use unicode_segmentation::UnicodeSegmentation;

verus! {

/// The extended grapheme clusters of a text, in order, as
/// `UnicodeSegmentation::graphemes(s, true)` yields them.
pub uninterp spec fn graphemes_of(s: Seq<char>) -> Seq<Seq<char>>;

/// The texts of a list of strings.
pub open spec fn views(gs: Seq<String>) -> Seq<Seq<char>> {
    gs.map_values(|g: String| g@)
}

/// `UnicodeSegmentation::graphemes(s, true)`, collected: the extended grapheme
/// clusters of `s`. The iterator yields consecutive slices of `s` from its
/// start to its end, so the clusters joined give `s` back.
#[verifier::external_body]
pub(crate) fn graphemes(s: &str) -> (r: Vec<String>)
    ensures
        views(r@) == graphemes_of(s@),
        views(r@).flatten() == s@,
{
    UnicodeSegmentation::graphemes(s, true).map(String::from).collect()
}

/// The clusters `gs[from..to]` joined into one string.
pub fn join_range(gs: &Vec<String>, from: usize, to: usize) -> (r: String)
    requires
        from <= to <= gs.len(),
    ensures
        r@ == views(gs@).subrange(from as int, to as int).flatten(),
{
    let mut r = String::new();
    let mut i = from;
    assert(views(gs@).subrange(from as int, from as int) =~= Seq::<Seq<char>>::empty());
    while i < to
        invariant
            from <= i <= to <= gs.len(),
            r@ == views(gs@).subrange(from as int, i as int).flatten(),
        decreases to - i,
    {
        let ghost before = views(gs@).subrange(from as int, i as int);
        r.append(gs[i].as_str());
        proof {
            let after = views(gs@).subrange(from as int, i + 1);
            assert(after =~= before + seq![gs@[i as int]@]);
            vstd::seq_lib::lemma_flatten_concat(before, seq![gs@[i as int]@]);
            seq![gs@[i as int]@].lemma_flatten_one_element();
        }
        i = i + 1;
    }
    r
}

/// The text before and the text after the first `at` clusters of `gs`.
pub fn split_graphemes(gs: &Vec<String>, at: usize) -> (r: (String, String))
    requires
        at <= gs.len(),
    ensures
        r.0@ == views(gs@).take(at as int).flatten(),
        r.1@ == views(gs@).skip(at as int).flatten(),
{
    let left = join_range(gs, 0, at);
    let right = join_range(gs, at, gs.len());
    assert(views(gs@).subrange(0, at as int) =~= views(gs@).take(at as int));
    assert(views(gs@).subrange(at as int, gs.len() as int) =~= views(gs@).skip(at as int));
    (left, right)
}

} // verus!
