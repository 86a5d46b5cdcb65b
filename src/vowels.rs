//! Counting the vowels of a line of text, one grapheme cluster at a time.

use vstd::prelude::*;
use vstd::string::StrSliceExecFns;

verus! {

/// The extended grapheme clusters of `s`, in order, as Unicode's text
/// segmentation rules cut them.
pub uninterp spec fn graphemes_of(s: Seq<char>) -> Seq<Seq<char>>;

/// `c` is one of `a e i o u`, in either case.
pub open spec fn is_vowel(c: char) -> bool {
    c == 'a' || c == 'e' || c == 'i' || c == 'o' || c == 'u' || c == 'A' || c == 'E' || c == 'I'
        || c == 'O' || c == 'U'
}

/// A cluster counts as a vowel when it is a vowel character alone: an `e`
/// followed by a combining accent is a cluster of two and does not count.
pub open spec fn is_vowel_cluster(g: Seq<char>) -> bool {
    g.len() == 1 && is_vowel(g[0])
}

/// The number of vowel clusters in `gs`.
pub open spec fn vowel_count(gs: Seq<Seq<char>>) -> nat
    decreases gs.len(),
{
    if gs.len() == 0 {
        0
    } else {
        vowel_count(gs.drop_last()) + if is_vowel_cluster(gs.last()) {
            1nat
        } else {
            0nat
        }
    }
}

/// Relies on `unicode_segmentation::UnicodeSegmentation::graphemes` with
/// extended clusters: it cuts `s` into its grapheme clusters, in order, and
/// what it returns depends on the text alone.
#[verifier::external_body]
fn extended_graphemes(s: &str) -> (r: Vec<String>)
    ensures
        r@.map_values(|g: String| g@) == graphemes_of(s@),
{
    unicode_segmentation::UnicodeSegmentation::graphemes(s, true).map(String::from).collect()
}

fn is_vowel_char(c: char) -> (r: bool)
    ensures
        r == is_vowel(c),
{
    c == 'a' || c == 'e' || c == 'i' || c == 'o' || c == 'u' || c == 'A' || c == 'E' || c == 'I'
        || c == 'O' || c == 'U'
}

/// Returns how many of the grapheme clusters `clusters` are vowels.
pub fn count_vowel_clusters(clusters: &Vec<String>) -> (count: usize)
    ensures
        count == vowel_count(clusters@.map_values(|g: String| g@)),
{
    let ghost gs = clusters@.map_values(|g: String| g@);
    let mut count: usize = 0;
    let mut i: usize = 0;
    while i < clusters.len()
        invariant
            i <= clusters@.len(),
            gs == clusters@.map_values(|g: String| g@),
            count == vowel_count(gs.take(i as int)),
            count <= i,
        decreases clusters@.len() - i,
    {
        let g = clusters[i].as_str();
        let vowel = g.unicode_len() == 1 && is_vowel_char(g.get_char(0));
        assert(gs.take(i + 1).drop_last() =~= gs.take(i as int));
        if vowel {
            count = count + 1;
        }
        i = i + 1;
    }
    assert(gs.take(i as int) =~= gs);
    count
}

/// Returns the number of vowels in `input`, counting grapheme clusters so
/// that a vowel carrying a combining mark is not a vowel.
pub fn count_vowels(input: &str) -> (count: usize)
    ensures
        count == vowel_count(graphemes_of(input@)),
{
    let clusters = extended_graphemes(input);
    count_vowel_clusters(&clusters)
}

} // verus!
