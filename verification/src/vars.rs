//! Decoding of the variables document: a JSON text whose top-level
//! object must hold a field `vars` mapping token strings to replacement
//! strings.

use vstd::prelude::*;

verus! {

/// Why a variables document was rejected.
#[derive(Clone, Copy, Debug, PartialEq, Eq, Structural)]
pub enum VarsError {
    /// The document is not well-formed JSON.
    MalformedJson,
    /// The document has no top-level field named `vars`.
    MissingVars,
    /// The `vars` field is present but its value is not a JSON object.
    VarsNotObject,
    /// A value inside the `vars` object is not a string.
    ValueNotString,
}

/// The outcome of decoding a variables document: either its key/value
/// pairs, in the order the decoder's map yields them, or the reason it
/// was rejected. Decoding is a function of the document text alone, so
/// the outcome can be given a name even though the JSON grammar is too
/// large to restate here.
pub uninterp spec fn vars_table(doc: Seq<char>) -> Result<Seq<(Seq<char>, Seq<char>)>, VarsError>;

/// Relies on `serde_json::from_str` and on `serde_json::Value`'s `get`,
/// `as_object` and `as_str`: decoding a document is deterministic in its
/// text, and the decoded object is a `BTreeMap`, so its iteration order
/// (ascending by key) is a function of the text too.
#[verifier::external_body]
pub(crate) fn decode_vars(doc: &str) -> (r: Result<Vec<(String, String)>, VarsError>)
    ensures
        match r {
            Ok(pairs) => vars_table(doc@) == Ok::<_, VarsError>(
                pairs@.map_values(|p: (String, String)| (p.0@, p.1@)),
            ),
            Err(e) => vars_table(doc@) == Err::<Seq<(Seq<char>, Seq<char>)>, _>(e),
        },
{
    let value: serde_json::Value =
        serde_json::from_str(doc).map_err(|_| VarsError::MalformedJson)?;
    let field = value.get("vars").ok_or(VarsError::MissingVars)?;
    let object = field.as_object().ok_or(VarsError::VarsNotObject)?;
    let mut pairs = Vec::new();
    for (key, val) in object {
        let text = val.as_str().ok_or(VarsError::ValueNotString)?;
        pairs.push((key.clone(), text.to_string()));
    }
    Ok(pairs)
}

} // verus!
