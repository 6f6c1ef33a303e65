//! The release-index lookup's verified core: the query URL for a release
//! identifier with an optional date range, and the extraction of each
//! release's first file.

use vstd::prelude::*;

use crate::dates::Date;

verus! {

/// One release of the publication library, as the index reports it.
#[derive(Debug)]
pub struct ESMISRelease {
    pub id: String,
    pub files: Vec<String>,
    pub title: Vec<String>,
    pub release_datetime: String,
    pub date_updated: Option<String>,
    pub date_modified: Option<String>,
    pub identifier: Vec<String>,
    pub agency_acronym: Vec<String>,
    pub bibliographic_citation: Option<Vec<String>>,
    pub description: Option<Vec<String>>,
    pub equipment_software: Option<Vec<String>>,
    pub temporal_coverage: Option<String>,
}

/// The release-index query URL for an identifier, with the date range where
/// both bounds are given.
pub open spec fn spec_esmis_url(
    identifier: Seq<char>,
    start_date: Option<Date>,
    end_date: Option<Date>,
) -> Seq<char> {
    let base = "https://usda.library.cornell.edu/api/v1/release/findByIdentifier/"@ + identifier;
    match (start_date, end_date) {
        (Some(s), Some(e)) => base + "?start_date="@ + s.spec_iso() + "&end_date="@ + e.spec_iso(),
        _ => base,
    }
}

/// Build the release-index query URL. The date bounds must be given
/// together or not at all; one without the other is the error.
pub fn esmis_target_url(
    identifier: &str,
    start_date: Option<Date>,
    end_date: Option<Date>,
) -> (r: Result<String, String>)
    ensures
        match r {
            Ok(s) => (start_date is Some <==> end_date is Some) && s@ == spec_esmis_url(
                identifier@,
                start_date,
                end_date,
            ),
            Err(e) => (start_date is Some) != (end_date is Some) && e@
                == "start_date and end_date must be specified together, or not at all."@,
        },
{
    match (&start_date, &end_date) {
        (Option::None, Option::Some(_)) => {
            return Err(
                "start_date and end_date must be specified together, or not at all.".to_owned(),
            );
        },
        (Option::Some(_), Option::None) => {
            return Err(
                "start_date and end_date must be specified together, or not at all.".to_owned(),
            );
        },
        _ => {},
    }
    let mut s = String::new();
    s.append("https://usda.library.cornell.edu/api/v1/release/findByIdentifier/");
    s.append(identifier);
    match (start_date, end_date) {
        (Some(sd), Some(ed)) => {
            s.append("?start_date=");
            let t = sd.format_iso();
            s.append(t.as_str());
            s.append("&end_date=");
            let t2 = ed.format_iso();
            s.append(t2.as_str());
        },
        _ => {},
    }
    proof {
        assert(s@ =~= spec_esmis_url(identifier@, start_date, end_date));
    }
    Ok(s)
}

/// The first file of each release, in release order. Every release must
/// carry at least one file.
pub fn release_files(releases: &Vec<ESMISRelease>) -> (r: Vec<String>)
    requires
        forall|i: int| 0 <= i < releases@.len() ==> (#[trigger] releases@[i]).files@.len() >= 1,
    ensures
        r@.len() == releases@.len(),
        forall|i: int| 0 <= i < r@.len() ==> (#[trigger] r@[i])@ == releases@[i].files@[0]@,
{
    let mut r: Vec<String> = Vec::new();
    let mut i: usize = 0;
    while i < releases.len()
        invariant
            i <= releases@.len(),
            r@.len() == i,
            forall|j: int| 0 <= j < releases@.len() ==> (#[trigger] releases@[j]).files@.len() >= 1,
            forall|j: int| 0 <= j < i ==> (#[trigger] r@[j])@ == releases@[j].files@[0]@,
        decreases releases@.len() - i,
    {
        let f = releases[i].files[0].clone();
        r.push(f);
        i += 1;
    }
    r
}

} // verus!
