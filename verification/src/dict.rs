//! The texts of the recognizer's classes.

use vstd::prelude::*;
use vstd::string::*;

verus! {

pub open spec fn texts(list: Seq<String>) -> Seq<Seq<char>> {
    list.map_values(|s: String| s@)
}

/// The strings of a JSON text, where it is an array of strings.
pub uninterp spec fn json_strings(text: Seq<char>) -> Option<Seq<Seq<char>>>;

#[verifier::external_type_specification]
#[verifier::external_body]
pub struct ExJsonError(serde_json::Error);

/// `serde_json::from_str`, for a `Vec<String>`. It is taken to return what depends
/// on the text alone: the strings of a JSON array of strings, and an error for any
/// other text.
#[verifier::external_body]
fn strings_from_json(text: &str) -> (r: Result<Vec<String>, serde_json::Error>)
    ensures
        (match r {
            Ok(list) => Some(texts(list@)),
            Err(_) => None,
        }) == json_strings(text@),
{
    serde_json::from_str(text)
}

/// The dictionary in a JSON text; none where it is not an array of strings.
pub fn parse_dict(json: &str) -> (r: Option<Vec<String>>)
    ensures
        (match r {
            Some(list) => Some(texts(list@)),
            None => None,
        }) == json_strings(json@),
{
    match strings_from_json(json) {
        Ok(list) => Some(list),
        Err(_) => None,
    }
}

/// The texts of the classes: the blank, the dictionary, and the space.
pub open spec fn class_texts(dict: Seq<Seq<char>>) -> Seq<Seq<char>> {
    seq!["blank"@] + dict + seq![" "@]
}

/// The texts of the classes for a dictionary.
pub fn class_list(dict: Vec<String>) -> (r: Vec<String>)
    ensures
        texts(r@) == class_texts(texts(dict@)),
{
    let mut dict: Vec<String> = dict;
    let mut out: Vec<String> = Vec::new();
    out.push(String::from_str("blank"));
    let ghost middle = dict@;
    out.append(&mut dict);
    out.push(String::from_str(" "));
    proof {
        assert(texts(out@) =~= class_texts(texts(middle)));
    }
    out
}

} // verus!
