//! The metadata document (`project.json`) handling that the import pipeline
//! needs: extracting the display title, and rewriting the copied document
//! with the workshop bookkeeping keys removed. Parsing and serialization
//! are serde_json's work, behind trusted wrappers whose results are named;
//! everything decided from those results is verified against the names.

use vstd::prelude::*;

use crate::errors::PipelineError;
use crate::import::{
    editor_destination, resolve_folder_name, spec_editor_destination, spec_resolve_folder,
    ImportToEditorOptions,
};

verus! {

/// The `title` string of a JSON document, when the document parses to an
/// object carrying one: a function of the text alone.
pub uninterp spec fn json_title_of(s: Seq<char>) -> Option<Seq<char>>;

/// Relies on serde_json::from_str, Value::get and Value::as_str: the title
/// field extracted from the document text, which depends on that text alone.
#[verifier::external_body]
fn title_field(s: &str) -> (r: Option<String>)
    ensures
        r.deep_view() == json_title_of(s@),
{
    match serde_json::from_str::<serde_json::Value>(s) {
        Ok(v) => v.get("title").and_then(|t| t.as_str()).map(|t| t.to_owned()),
        Err(_) => None,
    }
}

/// The document text re-serialized pretty-printed with the three keys
/// removed from its top-level object, or nothing when the text does not
/// parse (or cannot be re-serialized): a function of the four strings
/// alone.
pub uninterp spec fn json_stripped_of(
    s: Seq<char>,
    k1: Seq<char>,
    k2: Seq<char>,
    k3: Seq<char>,
) -> Option<Seq<char>>;

/// Relies on serde_json::from_str, Value::as_object_mut, Map::remove and
/// serde_json::to_string_pretty: parse the text, drop the three keys from
/// its top-level object (a non-object document is left as it is), and
/// pretty-print the result. Deterministic in its four arguments.
#[verifier::external_body]
fn json_strip_and_pretty(s: &str, k1: &str, k2: &str, k3: &str) -> (r: Option<String>)
    ensures
        r.deep_view() == json_stripped_of(s@, k1@, k2@, k3@),
{
    match serde_json::from_str::<serde_json::Value>(s) {
        Ok(mut v) => {
            if let Some(obj) = v.as_object_mut() {
                obj.remove(k1);
                obj.remove(k2);
                obj.remove(k3);
            }
            serde_json::to_string_pretty(&v).ok()
        },
        Err(_) => None,
    }
}

/// The rewrite the imported copy of a metadata document gets: the keys the
/// import pipeline strips, applied to [`json_stripped_of`].
pub open spec fn spec_stripped_metadata(s: Seq<char>) -> Option<Seq<char>> {
    json_stripped_of(s, "version"@, "workshopid"@, "workshopurl"@)
}

/// Extract the display title of a metadata document, if the text parses and
/// carries one.
pub fn extract_title(content: &str) -> (r: Option<String>)
    ensures
        r.deep_view() == json_title_of(content@),
{
    title_field(content)
}

/// Resolve the destination folder name straight from the metadata text: the
/// sanitized title when the document parses and yields a non-empty one,
/// else the workshop id. A missing or unparsable document degrades to the
/// workshop id instead of failing.
pub fn resolve_destination(project_json: Option<&str>, workshop_id: &str) -> (r: String)
    ensures
        r@ == spec_resolve_folder(
            match project_json {
                Some(c) => json_title_of(c@),
                None => None,
            },
            workshop_id@,
        ),
{
    match project_json {
        Some(c) => {
            let t = extract_title(c);
            match t {
                Some(t) => resolve_folder_name(Some(t.as_str()), workshop_id),
                None => resolve_folder_name(None, workshop_id),
            }
        },
        None => resolve_folder_name(None, workshop_id),
    }
}

/// The destination of one import operation, below its steamapps root: the
/// editor's `myprojects` tree, then the folder name resolved from the
/// package's metadata text with the workshop id as fallback.
pub fn destination_for(options: &ImportToEditorOptions, project_json: Option<&str>) -> (r: Vec<
    String,
>)
    ensures
        r.deep_view() == spec_editor_destination(
            spec_resolve_folder(
                match project_json {
                    Some(c) => json_title_of(c@),
                    None => None,
                },
                options.workshop_id@,
            ),
        ),
{
    let folder = resolve_destination(project_json, options.workshop_id.as_str());
    editor_destination(folder)
}

/// Rewrite a metadata document for the imported copy: parse it, drop the
/// `version`, `workshopid` and `workshopurl` keys from its top-level
/// object, and re-serialize with pretty formatting. The rewrite succeeds
/// exactly when that pipeline yields a document, and then returns exactly
/// its text; a document that cannot be parsed or re-serialized aborts with
/// MetadataMalformed, since the copy's correctness matters. The source
/// document is never touched.
pub fn strip_workshop_keys(content: &str) -> (r: Result<String, PipelineError>)
    ensures
        r is Ok <==> spec_stripped_metadata(content@) is Some,
        r is Ok ==> r->Ok_0@ == spec_stripped_metadata(content@)->0,
        r is Err ==> r == Err::<String, PipelineError>(PipelineError::MetadataMalformed),
{
    match json_strip_and_pretty(content, "version", "workshopid", "workshopurl") {
        Some(t) => Ok(t),
        None => Err(PipelineError::MetadataMalformed),
    }
}

} // verus!
