//! Splitting text the way Unicode does: into user-perceived characters and words.

use crate::text;
use vstd::prelude::*;
use vstd::utf8::*;
use unicode_segmentation::UnicodeSegmentation;

verus! {

/// The texts of a list of strings.
pub open spec fn texts(pieces: Seq<String>) -> Seq<Seq<char>> {
    Seq::new(pieces.len(), |i: int| pieces[i]@)
}

/// Pieces put together again.
pub open spec fn joined(pieces: Seq<Seq<char>>) -> Seq<char>
    decreases pieces.len(),
{
    if pieces.len() == 0 {
        Seq::empty()
    } else {
        joined(pieces.drop_last()) + pieces.last()
    }
}

/// No piece is empty, and together they are the text.
pub open spec fn splits(pieces: Seq<Seq<char>>, text: Seq<char>) -> bool {
    &&& forall|i: int| 0 <= i < pieces.len() ==> (#[trigger] pieces[i]).len() > 0
    &&& joined(pieces) == text
}

/// The extended grapheme clusters of a text, in order, as Unicode Standard Annex 29
/// divides it.
pub uninterp spec fn grapheme_clusters(text: Seq<char>) -> Seq<Seq<char>>;

/// The extended grapheme clusters of a text: `graphemes(true)` of
/// `unicode_segmentation::UnicodeSegmentation`, which cuts the text at every cluster
/// boundary, so that the clusters are not empty and follow each other without a gap.
#[verifier::external_body]
pub(crate) fn graphemes(text: &str) -> (clusters: Vec<String>)
    ensures
        texts(clusters@) == grapheme_clusters(text@),
        splits(texts(clusters@), text@),
{
    text.graphemes(true).map(String::from).collect()
}

/// The pieces of a text between word boundaries, in order, as Unicode Standard Annex 29
/// divides it.
pub uninterp spec fn word_pieces(text: Seq<char>) -> Seq<Seq<char>>;

/// The pieces of a text between word boundaries: `split_word_bounds` of
/// `unicode_segmentation::UnicodeSegmentation`, whose pieces put together are the text.
#[verifier::external_body]
pub(crate) fn word_bounds(text: &str) -> (pieces: Vec<String>)
    ensures
        texts(pieces@) == word_pieces(text@),
        joined(texts(pieces@)) == text@,
{
    text.split_word_bounds().map(String::from).collect()
}

/// The bytes of the first `n` pieces, which is where the next one starts.
pub open spec fn bytes_before(pieces: Seq<Seq<char>>, n: int) -> int
    decreases n,
{
    if n <= 0 {
        0
    } else {
        bytes_before(pieces, n - 1) + encode_utf8(pieces[n - 1]).len()
    }
}

/// Pieces start one after another.
pub proof fn lemma_bytes_before_ascend(pieces: Seq<Seq<char>>, i: int, j: int)
    requires
        0 <= i <= j <= pieces.len(),
    ensures
        0 <= bytes_before(pieces, i) <= bytes_before(pieces, j),
    decreases j,
{
    if i < j {
        lemma_bytes_before_ascend(pieces, i, j - 1);
    } else if 0 < i {
        lemma_bytes_before_ascend(pieces, i - 1, i - 1);
    }
}

/// All pieces have as many bytes as what they are put together to.
pub proof fn lemma_bytes_joined(pieces: Seq<Seq<char>>)
    ensures
        bytes_before(pieces, pieces.len() as int) == encode_utf8(joined(pieces)).len(),
    decreases pieces.len(),
{
    if pieces.len() > 0 {
        let shorter = pieces.drop_last();
        lemma_bytes_joined(shorter);
        lemma_bytes_before_prefix(shorter, pieces, shorter.len() as int);
        text::lemma_encode_concat(joined(shorter), pieces.last());
    }
}

/// A piece starts where the text before it ends.
pub proof fn lemma_starts_behind_text(pieces: Seq<Seq<char>>, n: int)
    requires
        0 <= n <= pieces.len(),
    ensures
        bytes_before(pieces, n) == encode_utf8(joined(pieces.take(n))).len(),
{
    let head = pieces.take(n);
    lemma_bytes_joined(head);
    lemma_bytes_before_prefix(head, pieces, n);
}

proof fn lemma_bytes_before_prefix(a: Seq<Seq<char>>, b: Seq<Seq<char>>, n: int)
    requires
        0 <= n <= a.len() <= b.len(),
        forall|i: int| 0 <= i < a.len() ==> a[i] == b[i],
    ensures
        bytes_before(a, n) == bytes_before(b, n),
    decreases n,
{
    if n > 0 {
        lemma_bytes_before_prefix(a, b, n - 1);
    }
}

} // verus!
