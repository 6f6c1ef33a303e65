//! The market-report service's verified core: report metadata and result
//! shapes, and the report query URL with its optional begin-date range.

use vstd::prelude::*;

use crate::dates::Date;

verus! {

/// Metadata of one listed report.
#[derive(Debug)]
pub struct ReportMetadata {
    pub slug_id: String,
    pub report_title: String,
    pub published_date: String,
    pub markets: Vec<String>,
    pub market_types: Vec<String>,
    pub offices: Vec<String>,
    pub section_names: Vec<String>,
}

/// The result rows of one report query.
#[derive(Debug)]
pub struct ReportResult {
    pub results: Vec<Vec<(String, Option<String>)>>,
}

/// The report query URL, bounded below by the minimum begin date (and above
/// by today) when one is given.
pub open spec fn spec_mars_url(
    report: Seq<char>,
    minimum_begin_date: Option<Date>,
    today: Date,
) -> Seq<char> {
    let base = "https://marsapi.ams.usda.gov/services/v1/reports/"@ + report;
    match minimum_begin_date {
        Some(d) => base + "?report_begin_date="@ + d.spec_iso() + ":"@ + today.spec_iso(),
        None => base,
    }
}

pub fn mars_report_url(report: &str, minimum_begin_date: Option<Date>, today: Date) -> (s: String)
    ensures
        s@ == spec_mars_url(report@, minimum_begin_date, today),
{
    let mut s = String::new();
    s.append("https://marsapi.ams.usda.gov/services/v1/reports/");
    s.append(report);
    match minimum_begin_date {
        Some(d) => {
            s.append("?report_begin_date=");
            let t = d.format_iso();
            s.append(t.as_str());
            s.append(":");
            let t2 = today.format_iso();
            s.append(t2.as_str());
        },
        None => {},
    }
    proof {
        assert(s@ =~= spec_mars_url(report@, minimum_begin_date, today));
    }
    s
}

} // verus!
