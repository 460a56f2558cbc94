use std::collections::BTreeMap;
use vstd::prelude::*;
use crate::formats::params::{has_param, param_text, required_param};

verus! {

/// Options of the New York City spreadsheet reader.
pub struct ReaderOptions {
    pub office_name: String,
    pub jurisdiction_name: String,
    pub candidates_file: String,
    pub cvr_pattern: String,
}

impl ReaderOptions {
    /// Reads the `officeName`, `jurisdictionName`, `candidatesFile` and `cvrPattern` parameters.
    pub fn from_params(params: BTreeMap<String, String>) -> (r: ReaderOptions)
        requires
            has_param(params@, "officeName"@),
            has_param(params@, "jurisdictionName"@),
            has_param(params@, "candidatesFile"@),
            has_param(params@, "cvrPattern"@),
        ensures
            r.office_name@ == param_text(params@, "officeName"@),
            r.jurisdiction_name@ == param_text(params@, "jurisdictionName"@),
            r.candidates_file@ == param_text(params@, "candidatesFile"@),
            r.cvr_pattern@ == param_text(params@, "cvrPattern"@),
    {
        let office_name = required_param(&params, "officeName");
        let jurisdiction_name = required_param(&params, "jurisdictionName");
        let candidates_file = required_param(&params, "candidatesFile");
        let cvr_pattern = required_param(&params, "cvrPattern");
        ReaderOptions { office_name, jurisdiction_name, candidates_file, cvr_pattern }
    }
}

} // verus!
