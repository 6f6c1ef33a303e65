use data_acquisition::datamart::{
    datamart_target_url, process_datamart_response, process_datamart_rows, row_cap_hit, row_get,
    RowLookup,
};
use data_acquisition::dates::{today, Date};
use data_acquisition::esmis::{esmis_target_url, release_files, ESMISRelease};
use data_acquisition::mars::mars_report_url;
use data_acquisition::package::{USDADataPackage, USDADataPackageSection};
use data_acquisition::persist::{
    create_table_sql, insert_sql, noaa_insert_sql, record_rows, section_table_names, strip_commas,
    table_name, valid_sql_identifier,
};
use data_acquisition::schema::{DatamartConfig, DatamartResponse, DatamartSection};
use data_acquisition::sync::{is_report_file, max_date, sync_window};
use data_acquisition::text::base64_encode;

fn d(year: u32, month: u32, day: u32) -> Date {
    Date { year, month, day }
}

#[test]
fn date_arithmetic_and_rendering() {
    assert_eq!(Date::new(2020, 2, 29), Some(d(2020, 2, 29)));
    assert_eq!(Date::new(2019, 2, 29), None);
    assert_eq!(Date::new(2020, 13, 1), None);
    assert_eq!(Date::new(2020, 4, 31), None);
    assert_eq!(d(2020, 2, 28).succ(), d(2020, 2, 29));
    assert_eq!(d(2019, 2, 28).succ(), d(2019, 3, 1));
    assert_eq!(d(2020, 12, 31).succ(), d(2021, 1, 1));
    assert_eq!(d(2020, 3, 14).format_iso(), "2020-03-14");
    assert_eq!(d(2020, 3, 14).format_mdy(), "03/14/2020");
    assert_eq!(d(987, 11, 2).format_iso(), "0987-11-02");
    assert!(d(2020, 3, 14).le(&d(2020, 3, 14)));
    assert!(d(2020, 3, 14).lt(&d(2020, 3, 15)));
    assert!(!d(2021, 1, 1).le(&d(2020, 12, 31)));
}

#[test]
fn today_is_a_valid_date() {
    let t = today();
    assert!(1 <= t.month && t.month <= 12);
    assert!(1 <= t.day && t.day <= 31);
    assert!(1 <= t.year && t.year <= 9999);
}

#[test]
fn sync_window_from_watermark() {
    // watermark D, today T >= D+1: the window is exactly [D+1, T]
    let w = sync_window(Some(d(2020, 3, 14)), d(2020, 3, 20));
    assert_eq!(w, Some((d(2020, 3, 15), d(2020, 3, 20))));
    // T == D+1: a one-day window
    let w = sync_window(Some(d(2020, 3, 14)), d(2020, 3, 15));
    assert_eq!(w, Some((d(2020, 3, 15), d(2020, 3, 15))));
    // T < D+1: the source is current, no request is issued
    assert_eq!(sync_window(Some(d(2020, 3, 14)), d(2020, 3, 14)), None);
    assert_eq!(sync_window(Some(d(2020, 3, 14)), d(2020, 3, 1)), None);
    // no watermark: the window starts at the fallback epoch
    let w = sync_window(None, d(2020, 3, 20));
    assert_eq!(w, Some((d(2008, 1, 1), d(2020, 3, 20))));
    assert_eq!(sync_window(None, d(2007, 12, 31)), None);
}

#[test]
fn max_date_folds_per_table_maxima() {
    assert_eq!(max_date(&vec![]), None);
    assert_eq!(max_date(&vec![None, None]), None);
    let dates = vec![None, Some(d(2019, 5, 1)), Some(d(2020, 1, 2)), Some(d(2019, 12, 31))];
    assert_eq!(max_date(&dates), Some(d(2020, 1, 2)));
}

#[test]
fn report_file_filter() {
    assert!(is_report_file("report.TXT", false));
    assert!(is_report_file("report.txt", false));
    assert!(!is_report_file("report.pdf", false));
    assert!(is_report_file("txt", false));
    assert!(is_report_file("anything", true));
    assert!(!is_report_file("archive.txt.gz", false));
}

#[test]
fn datamart_urls() {
    assert_eq!(
        datamart_target_url("2451", "Summary", "report_date", Some(d(2020, 1, 1)), None, d(2020, 6, 1)),
        "https://mpr.datamart.ams.usda.gov/services/v1.1/reports/2451/Summary?q=report_date=01/01/2020"
    );
    assert_eq!(
        datamart_target_url("2451", "Summary", "report_date", None, Some(d(2020, 1, 2)), d(2020, 6, 1)),
        "https://mpr.datamart.ams.usda.gov/services/v1.1/reports/2451/Summary?q=report_date=01/02/2020:06/01/2020"
    );
    assert_eq!(
        datamart_target_url("2451", "Summary", "report_date", None, None, d(2020, 6, 1)),
        "https://mpr.datamart.ams.usda.gov/services/v1.1/reports/2451/Summary"
    );
}

#[test]
fn esmis_urls() {
    assert_eq!(
        esmis_target_url("LM_XB463", None, None).unwrap(),
        "https://usda.library.cornell.edu/api/v1/release/findByIdentifier/LM_XB463"
    );
    assert_eq!(
        esmis_target_url("LM_XB463", Some(d(2020, 3, 15)), Some(d(2020, 3, 20))).unwrap(),
        "https://usda.library.cornell.edu/api/v1/release/findByIdentifier/LM_XB463?start_date=2020-03-15&end_date=2020-03-20"
    );
    assert_eq!(
        esmis_target_url("LM_XB463", Some(d(2020, 3, 15)), None).unwrap_err(),
        "start_date and end_date must be specified together, or not at all."
    );
    assert_eq!(
        esmis_target_url("LM_XB463", None, Some(d(2020, 3, 15))).unwrap_err(),
        "start_date and end_date must be specified together, or not at all."
    );
}

#[test]
fn esmis_release_files() {
    let release = ESMISRelease {
        id: "r1".to_string(),
        files: vec!["https://files.example/one.txt".to_string(), "second".to_string()],
        title: vec![],
        release_datetime: "2020-03-14".to_string(),
        date_updated: None,
        date_modified: None,
        identifier: vec!["LM_XB463".to_string()],
        agency_acronym: vec![],
        bibliographic_citation: None,
        description: None,
        equipment_software: None,
        temporal_coverage: None,
    };
    let files = release_files(&vec![release]);
    assert_eq!(files, vec!["https://files.example/one.txt"]);
}

#[test]
fn mars_urls() {
    assert_eq!(
        mars_report_url("1095", None, d(2020, 6, 1)),
        "https://marsapi.ams.usda.gov/services/v1/reports/1095"
    );
    assert_eq!(
        mars_report_url("1095", Some(d(2020, 1, 2)), d(2020, 6, 1)),
        "https://marsapi.ams.usda.gov/services/v1/reports/1095?report_begin_date=2020-01-02:2020-06-01"
    );
}

fn row(pairs: Vec<(&str, Option<&str>)>) -> Vec<(String, Option<String>)> {
    pairs
        .into_iter()
        .map(|(k, v)| (k.to_string(), v.map(|s| s.to_string())))
        .collect()
}

#[test]
fn null_date_row_is_skipped_but_later_rows_processed() {
    let fields = vec!["price".to_string()];
    let independent = vec!["report_date".to_string()];
    let results = vec![
        row(vec![("report_date", None), ("price", Some("4.00"))]),
        row(vec![("report_date", Some("01/15/2020")), ("price", Some("5.00"))]),
    ];
    let (records, skipped) =
        process_datamart_rows("report_date", &fields, &independent, &results).unwrap();
    assert_eq!(skipped, 1);
    assert_eq!(records.len(), 1);
    assert_eq!(records[0].report_date, d(2020, 1, 15));
    assert_eq!(records[0].independent, vec!["01/15/2020"]);
    assert_eq!(records[0].entries, vec![("price".to_string(), "5.00".to_string())]);
}

#[test]
fn missing_date_column_is_hard_failure() {
    let fields = vec!["price".to_string()];
    let independent = vec!["report_date".to_string()];
    let results = vec![row(vec![("price", Some("5.00"))])];
    let e = process_datamart_rows("report_date", &fields, &independent, &results).unwrap_err();
    assert_eq!(e, "Failed to find the independent date column in a response row.");
}

#[test]
fn null_independent_value_skips_row_and_missing_column_fails() {
    let fields = vec![];
    let independent = vec!["report_date".to_string(), "region".to_string()];
    // null region: the row is skipped
    let results = vec![
        row(vec![("report_date", Some("01/15/2020")), ("region", None)]),
        row(vec![("report_date", Some("01/16/2020")), ("region", Some("West"))]),
    ];
    let (records, skipped) =
        process_datamart_rows("report_date", &fields, &independent, &results).unwrap();
    assert_eq!(skipped, 1);
    assert_eq!(records.len(), 1);
    assert_eq!(records[0].independent, vec!["01/16/2020", "West"]);
    // wholly absent region column: hard failure
    let results = vec![row(vec![("report_date", Some("01/15/2020"))])];
    let e = process_datamart_rows("report_date", &fields, &independent, &results).unwrap_err();
    assert_eq!(e, "Failed to find independent column in response row.");
}

#[test]
fn missing_field_value_becomes_empty_text() {
    let fields = vec!["price".to_string(), "volume".to_string()];
    let independent = vec!["report_date".to_string()];
    let results = vec![row(vec![("report_date", Some("01/15/2020")), ("price", Some("5.00"))])];
    let (records, _) =
        process_datamart_rows("report_date", &fields, &independent, &results).unwrap();
    let rec = &records[0];
    assert_eq!(
        rec.entries,
        vec![
            ("price".to_string(), "5.00".to_string()),
            ("volume".to_string(), "".to_string())
        ]
    );
}

#[test]
fn response_row_cap_warning() {
    let stats = vec![("returnedRows:".to_string(), 5001u32), ("userAllowedRows:".to_string(), 5000u32)];
    assert!(row_cap_hit(&stats));
    let stats = vec![("returnedRows:".to_string(), 120u32), ("userAllowedRows:".to_string(), 5000u32)];
    assert!(!row_cap_hit(&stats));
    assert!(!row_cap_hit(&vec![]));

    let response = DatamartResponse {
        report_section: "Summary".to_string(),
        report_sections: vec![],
        stats: vec![("returnedRows:".to_string(), 3u32), ("userAllowedRows:".to_string(), 2u32)],
        results: Some(vec![row(vec![("report_date", Some("01/15/2020"))])]),
        message: None,
    };
    let (records, skipped, warning) = process_datamart_response(
        "report_date",
        &vec![],
        &vec!["report_date".to_string()],
        &response,
    )
    .unwrap();
    assert!(warning);
    assert_eq!(records.len(), 1);
    assert_eq!(skipped, 0);

    let empty = DatamartResponse {
        report_section: "Summary".to_string(),
        report_sections: vec![],
        stats: vec![],
        results: None,
        message: Some("down".to_string()),
    };
    let e = process_datamart_response("report_date", &vec![], &vec![], &empty).unwrap_err();
    assert_eq!(e, "No results found.");
}

#[test]
fn row_lookup_cases() {
    let r = row(vec![("a", Some("1")), ("b", None)]);
    assert!(matches!(row_get(&r, "a"), RowLookup::Value(v) if v == "1"));
    assert!(matches!(row_get(&r, "b"), RowLookup::Null));
    assert!(matches!(row_get(&r, "c"), RowLookup::Missing));
}

#[test]
fn table_names() {
    assert_eq!(table_name("NOAA", "TMAX", &None), "noaa_tmax");
    assert_eq!(
        table_name("LM_XB463", "summary", &Some("totals".to_string())),
        "lm_xb463_totals"
    );
}

#[test]
fn ddl_and_dml_text() {
    let independent = vec!["report_date".to_string(), "station_id".to_string()];
    assert_eq!(
        create_table_sql("noaa_tmax", &independent),
        "CREATE TABLE IF NOT EXISTS noaa_tmax (report_date date not null, \
         \"station_id\" text not null, variable_name text not null, value real, \
         value_text text, constraint noaa_tmax_pkeys primary key \
         (report_date, variable_name, \"station_id\"));"
    );
    assert_eq!(
        insert_sql("noaa_tmax", &independent),
        "INSERT INTO noaa_tmax (report_date, \"station_id\", variable_name, value, value_text) \
         VALUES($1,$2,$3,$4,$5) ON CONFLICT ON CONSTRAINT noaa_tmax_pkeys DO NOTHING"
    );
    let one = vec!["report_date".to_string()];
    assert_eq!(
        insert_sql("lm_xb463_summary", &one),
        "INSERT INTO lm_xb463_summary (report_date, variable_name, value, value_text) \
         VALUES($1,$2,$3,$4) ON CONFLICT ON CONSTRAINT lm_xb463_summary_pkeys DO NOTHING"
    );
    assert_eq!(
        noaa_insert_sql("TMAX"),
        "INSERT INTO noaa_TMAX (report_date, station_id, variable_name, value, value_text) \
         VALUES($1, $2, $3, $4, $5) ON CONFLICT ON CONSTRAINT noaa_TMAX_pkeys DO NOTHING"
    );
}

#[test]
fn empty_raw_value_is_never_written() {
    let mut rec = USDADataPackageSection::new(d(2020, 3, 14));
    rec.independent.push("2020-03-14".to_string());
    rec.independent.push("West".to_string());
    rec.set_entry("empty_one".to_string(), "".to_string());
    rec.set_entry("total".to_string(), "1,234".to_string());
    rec.set_entry("note".to_string(), "n/a".to_string());
    let rows = record_rows(&rec);
    assert_eq!(rows.len(), 2);
    assert_eq!(rows[0].variable_name, "total");
    assert_eq!(rows[0].value_text, "1,234");
    assert_eq!(rows[0].numeric_candidate, "1234");
    assert_eq!(rows[0].independent, vec!["West"]);
    assert_eq!(rows[0].report_date, d(2020, 3, 14));
    assert_eq!(rows[1].variable_name, "note");
    assert_eq!(rows[1].numeric_candidate, "n/a");
    for r in &rows {
        assert!(!r.value_text.is_empty());
    }
}

#[test]
fn strip_commas_text() {
    assert_eq!(strip_commas("1,234,567"), "1234567");
    assert_eq!(strip_commas("no commas"), "no commas");
    assert_eq!(strip_commas(""), "");
}

#[test]
fn package_sections_and_entries() {
    let mut p = USDADataPackage::new("DEMO".to_string());
    let i = p.section_index("alpha");
    let j = p.section_index("beta");
    assert_ne!(i, j);
    assert_eq!(p.section_index("alpha"), i);
    let mut rec = USDADataPackageSection::new(d(2020, 1, 1));
    rec.set_entry("k".to_string(), "v1".to_string());
    rec.set_entry("k".to_string(), "v2".to_string());
    assert_eq!(rec.entries, vec![("k".to_string(), "v2".to_string())]);
    assert!(rec.has_entry("k"));
    assert!(!rec.has_entry("other"));
    p.push_record(i, rec);
    assert_eq!(p.sections[i].1.len(), 1);
    assert_eq!(p.sections[j].1.len(), 0);
}

#[test]
fn section_table_names_follow_aliases() {
    let config = DatamartConfig {
        name: "LM_XB463".to_string(),
        description: "boxed beef".to_string(),
        independent: "report_date".to_string(),
        sections: vec![
            (
                "summary".to_string(),
                DatamartSection {
                    alias: None,
                    independent: vec!["report_date".to_string()],
                    fields: vec!["total_loads".to_string()],
                },
            ),
            (
                "quality".to_string(),
                DatamartSection {
                    alias: Some("grades".to_string()),
                    independent: vec!["report_date".to_string()],
                    fields: vec![],
                },
            ),
        ],
    };
    assert_eq!(
        section_table_names(&config),
        vec!["lm_xb463_summary", "lm_xb463_grades"]
    );
}

#[test]
fn row_plan_repeats_identically() {
    // the same record always plans the same upsert rows, so replaying a
    // package against the conflict-ignore key changes nothing
    let mut rec = USDADataPackageSection::new(d(2020, 3, 14));
    rec.independent.push("2020-03-14".to_string());
    rec.set_entry("total".to_string(), "1,234".to_string());
    rec.set_entry("note".to_string(), "".to_string());
    let first = record_rows(&rec);
    let second = record_rows(&rec);
    assert_eq!(first.len(), second.len());
    for (a, b) in first.iter().zip(second.iter()) {
        assert_eq!(a.report_date, b.report_date);
        assert_eq!(a.independent, b.independent);
        assert_eq!(a.variable_name, b.variable_name);
        assert_eq!(a.numeric_candidate, b.numeric_candidate);
        assert_eq!(a.value_text, b.value_text);
    }
}

#[test]
fn sql_identifier_charset() {
    assert!(valid_sql_identifier("report_date"));
    assert!(valid_sql_identifier("TMAX"));
    assert!(valid_sql_identifier("_x9"));
    assert!(!valid_sql_identifier(""));
    assert!(!valid_sql_identifier("9lives"));
    assert!(!valid_sql_identifier("drop table;--"));
    assert!(!valid_sql_identifier("a b"));
    assert!(!valid_sql_identifier("a\"b"));
}

#[test]
fn base64_text() {
    assert_eq!(base64_encode(b""), "");
    assert_eq!(base64_encode(b"f"), "Zg==");
    assert_eq!(base64_encode(b"fo"), "Zm8=");
    assert_eq!(base64_encode(b"foo"), "Zm9v");
    assert_eq!(base64_encode(b"foobar"), "Zm9vYmFy");
    assert_eq!(base64_encode(b"key:"), "a2V5Og==");
}
