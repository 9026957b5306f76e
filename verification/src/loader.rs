//! Building a dictionary from a word-list text.
//!
//! A word list arrives as a JSON array of strings.  The text is parsed,
//! every word is folded to lower case, and its UTF-8 bytes are inserted
//! into a fresh dictionary.  Reading the text from a file, and every
//! other interaction with the outside world, stays with the caller.

use vstd::prelude::*;
use vstd::utf8::encode_utf8;
use crate::dict::Trie;

verus! {

/// Why a word-list text was rejected.
#[derive(Clone, Copy, Debug, PartialEq, Eq, Structural)]
pub enum LoadError {
    /// The text is not a JSON array of strings.
    Malformed,
}

/// What `serde_json` reads a text as, when the text is a JSON array of
/// strings: the result depends on the text alone.
pub uninterp spec fn json_word_list(s: Seq<char>) -> Option<Seq<Seq<char>>>;

/// Relies on `serde_json::from_str::<Vec<String>>`: parses the text as
/// a JSON array of strings, failing exactly on texts that are no such
/// array; the outcome depends on the text alone.
#[verifier::external_body]
fn parse_word_list(data: &str) -> (r: Result<Vec<String>, serde_json::Error>)
    ensures
        match r {
            Ok(ws) => json_word_list(data@) == Some(ws.deep_view()),
            Err(_) => json_word_list(data@) is None,
        },
{
    serde_json::from_str::<Vec<String>>(data)
}

#[verifier::external_type_specification]
#[verifier::external_body]
pub struct ExSerdeJsonError(serde_json::Error);

/// What one word contributes to the dictionary: the UTF-8 bytes of its
/// lowercase form.
pub open spec fn stored_form(w: Seq<char>) -> Seq<u8> {
    encode_utf8(lower_of(w))
}

/// What `str::to_lowercase` returns for a text, which depends on the
/// characters alone.
pub uninterp spec fn lower_of(s: Seq<char>) -> Seq<char>;

/// Relies on `str::to_lowercase`: the result is determined by the
/// characters of the input alone.
#[verifier::external_body]
fn lowercase(s: &str) -> (r: String)
    ensures
        r@ == lower_of(s@),
{
    s.to_lowercase()
}

/// The dictionary contents a word list calls for: the stored form of
/// each of its words.
pub open spec fn word_set(ws: Seq<Seq<char>>) -> Set<Seq<u8>> {
    Set::new(
        |w: Seq<u8>| exists|i: int| 0 <= i < ws.len() && w == stored_form(#[trigger] ws[i]),
    )
}

/// Builds a dictionary from a word-list text: on a JSON array of
/// strings, the dictionary holds exactly the stored form of every
/// listed word; any other text is rejected as malformed.
pub fn build_dictionary(data: &str) -> (r: Result<Trie, LoadError>)
    ensures
        match r {
            Ok(t) => {
                &&& t.wf()
                &&& json_word_list(data@) matches Some(ws) && t.words() == word_set(ws)
            },
            Err(e) => e == LoadError::Malformed && json_word_list(data@) is None,
        },
{
    let words: Vec<String> = match parse_word_list(data) {
        Ok(ws) => ws,
        Err(_) => {
            return Err(LoadError::Malformed);
        },
    };
    let ghost ws: Seq<Seq<char>> = words.deep_view();
    let mut t = Trie::new();
    let mut i: usize = 0;
    while i < words.len()
        invariant
            i <= words@.len(),
            ws == words.deep_view(),
            t.wf(),
            t.words() == word_set(ws.take(i as int)),
        decreases words@.len() - i,
    {
        let lowered = lowercase(words[i].as_str());
        let ls: &str = lowered.as_str();
        let bs: &[u8] = ls.as_bytes();
        let ghost before: Set<Seq<u8>> = t.words();
        t.insert(bs);
        proof {
            assert(ls@ == lower_of(ws[i as int]));
            assert(bs@ == stored_form(ws[i as int]));
            assert(t.words() =~= word_set(ws.take(i + 1))) by {
                assert(t.words() == before.insert(stored_form(ws[i as int])));
                assert forall|w: Seq<u8>| #[trigger]
                    t.words().contains(w) <==> word_set(ws.take(i + 1)).contains(w) by {
                    if t.words().contains(w) {
                        if w == stored_form(ws[i as int]) {
                            assert(ws.take(i + 1)[i as int] == ws[i as int]);
                        } else {
                            assert(before.contains(w));
                            let j = choose|j: int|
                                0 <= j < ws.take(i as int).len() && w == stored_form(
                                    #[trigger] ws.take(i as int)[j],
                                );
                            assert(ws.take(i + 1)[j] == ws[j]);
                        }
                    }
                    if word_set(ws.take(i + 1)).contains(w) {
                        let j = choose|j: int|
                            0 <= j < ws.take(i + 1).len() && w == stored_form(
                                #[trigger] ws.take(i + 1)[j],
                            );
                        if j < i as int {
                            assert(ws.take(i as int)[j] == ws[j]);
                            assert(before.contains(w));
                        } else {
                            assert(w == stored_form(ws[i as int]));
                        }
                    }
                }
            }
        }
        i += 1;
    }
    proof {
        assert(ws.take(ws.len() as int) =~= ws);
    }
    Ok(t)
}

} // verus!
