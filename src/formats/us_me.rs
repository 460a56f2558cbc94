use std::collections::BTreeMap;
use vstd::prelude::*;
use crate::formats::params::{has_param, param_text, required_param, split_at_char, split_on};

verus! {

/// Options of the Maine spreadsheet reader.
pub struct ReaderOptions {
    pub files: Vec<String>,
}

impl ReaderOptions {
    /// Reads the `files` parameter: file names separated by `;`.
    pub fn from_params(params: BTreeMap<String, String>) -> (r: ReaderOptions)
        requires
            has_param(params@, "files"@),
        ensures
            r.files@.map_values(|f: String| f@) == split_on(param_text(params@, "files"@), ';'),
    {
        let files = required_param(&params, "files");
        ReaderOptions { files: split_at_char(files.as_str(), ';') }
    }
}

} // verus!
