use data_acquisition::dates::Date;
use data_acquisition::legacy::{
    dcgr110_text_parse, find_line_contains, find_line_starts_with, lmxb463_text_parse, scan_mdy,
};
use data_acquisition::package::USDADataPackage;

fn lmxb463_document() -> String {
    let lines = vec![
        "National Weekly Boxed Beef Cutout & Boxed Beef Cuts",
        "For Week Ending: 03/14/2020",
        "",
        "TOTAL LOADS OF PRODUCT REPORTED     1,859",
        "",
        "Weekly Cutout Value Summary",
        "                 Comprehensive  Prime  Branded  Choice  Select  Ungraded",
        "Current Cutout Values   229.15  241.27  230.00  231.11  215.02  209.33",
        "",
        "",
        "",
        "",
        "",
        "",
        "Quality breakdown:",
        "CHOICE   1,111",
        "SELECT   222",
        "PRIME*   33",
        "BRANDED  444",
        "UNGRADED 55",
        "Sales type breakdown:",
        "NEGOTIATED   2,500",
        "FORMULA      1,200",
        "FORWARD      300",
        "NEGOTIATED-GRID 150",
        "Destination breakdown:",
        "DOMESTIC    2,000",
        "EXPORT      500",
        "OVERSEAS    100",
        "Delivery period breakdown:",
        "0-14 DAYS    1,500",
        "15-21 DAYS   600",
        "22-60 DAYS   200",
        "60-90 DAYS   50",
    ];
    lines.join("\n")
}

fn section<'a>(
    p: &'a USDADataPackage,
    name: &str,
) -> &'a Vec<data_acquisition::package::USDADataPackageSection> {
    &p.sections.iter().find(|s| s.0 == name).expect("section must exist").1
}

fn entry(rec: &data_acquisition::package::USDADataPackageSection, key: &str) -> String {
    rec.entries
        .iter()
        .find(|e| e.0 == key)
        .map(|e| e.1.clone())
        .expect("entry must exist")
}

#[test]
fn lmxb463_anchor_date_stamps_every_record() {
    let doc = lmxb463_document();
    let p = lmxb463_text_parse(&doc).unwrap();
    assert_eq!(p.name, "LM_XB463");
    let expected = Date { year: 2020, month: 3, day: 14 };
    let mut n_records = 0;
    for (_, records) in &p.sections {
        for rec in records {
            n_records += 1;
            assert_eq!(rec.report_date, expected);
            assert_eq!(rec.independent[0], "2020-03-14");
        }
    }
    assert_eq!(n_records, 5);
}

#[test]
fn lmxb463_summary_and_sections() {
    let doc = lmxb463_document();
    let p = lmxb463_text_parse(&doc).unwrap();
    let summary = &section(&p, "summary")[0];
    assert_eq!(entry(summary, "total_loads"), "1,859");
    assert_eq!(entry(summary, "current_cutout_values__comprehensive"), "229.15");
    assert_eq!(entry(summary, "current_cutout_values__prime"), "241.27");
    assert_eq!(entry(summary, "current_cutout_values__ungraded"), "209.33");
    let quality = &section(&p, "quality")[0];
    assert_eq!(entry(quality, "CHOICE"), "1,111");
    assert_eq!(entry(quality, "PRIME"), "33");
    let sales = &section(&p, "sales_type")[0];
    assert_eq!(entry(sales, "NEGOTIATED"), "2,500");
    assert_eq!(entry(sales, "NEGOTIATED-GRID"), "150");
    let destination = &section(&p, "destination")[0];
    assert_eq!(entry(destination, "DOMESTIC"), "2,000");
    let delivery = &section(&p, "delivery")[0];
    assert_eq!(entry(delivery, "0-14 DAYS"), "1,500");
}

#[test]
fn lmxb463_missing_date_anchor_is_error() {
    let doc = "no anchors here\nat all\n".to_string();
    let e = lmxb463_text_parse(&doc).unwrap_err();
    assert_eq!(e, "Failed to find date line");
}

#[test]
fn lmxb463_unparseable_date_is_error() {
    let doc = "For Week Ending: sometime\n".to_string();
    let e = lmxb463_text_parse(&doc).unwrap_err();
    assert_eq!(e, "Failed to parse date line for report, aborting.");
}

#[test]
fn lmxb463_missing_total_loads_is_error() {
    let doc = "For Week Ending: 03/14/2020\nnothing else\n".to_string();
    let e = lmxb463_text_parse(&doc).unwrap_err();
    assert_eq!(e, "Failed to find total load count location.");
}

fn dcgr110_document() -> String {
    let lines = vec![
        "Dodge City, KS    Wed, Jan 5, 2021",
        "HRW WHEAT ORD US NO 1    header",
        "--------",
        "Western Kansas        4.65",
        "",
        "CORN US NO 2 header",
        "--------",
        "Central Kansas        3.85",
        "",
        "SORGHUM header",
        "--------",
        "Western Kansas        5.95",
        "",
        "SOYBEANS header",
        "--------",
        "Kansas        9.50",
        "",
    ];
    lines.join("\n")
}

#[test]
fn dcgr110_parses_all_grain_sections() {
    let doc = dcgr110_document();
    let p = dcgr110_text_parse(&doc).unwrap();
    assert_eq!(p.name, "DC_GR110");
    let expected = Date { year: 2021, month: 1, day: 5 };
    let wheat = &section(&p, "wheat")[0];
    assert_eq!(wheat.report_date, expected);
    assert_eq!(wheat.independent[0], "2021-01-05");
    assert_eq!(wheat.independent[1], "Western Kansas");
    assert_eq!(entry(wheat, "bid"), "4.65");
    let corn = &section(&p, "corn")[0];
    assert_eq!(corn.independent[1], "Central Kansas");
    assert_eq!(entry(corn, "bid"), "3.85");
    let sorghum = &section(&p, "sorghum")[0];
    assert_eq!(entry(sorghum, "bid"), "5.95");
    let soybeans = &section(&p, "soybeans")[0];
    assert_eq!(entry(soybeans, "bid"), "9.5");
}

#[test]
fn dcgr110_invalid_month_is_error() {
    let doc = "Dodge City, KS    Wed, January 5, 2021\nHRW WHEAT ORD US NO 1\n".to_string();
    let e = dcgr110_text_parse(&doc).unwrap_err();
    assert_eq!(e, "Invalid month name captured: january");
}

#[test]
fn dcgr110_truncated_report_is_error() {
    let doc = "Dodge City, KS    Wed, Jan 5, 2021\nHRW WHEAT ORD US NO 1\n".to_string();
    let e = dcgr110_text_parse(&doc).unwrap_err();
    assert!(e.starts_with("Failed to parse report, hit end of report early."));
    assert_eq!(
        e,
        "Failed to parse report, hit end of report early. Missed sections: corn sorghum soybeans"
    );
}

#[test]
fn find_line_helpers() {
    let lines: Vec<Vec<char>> = vec![
        "alpha".chars().collect(),
        "beta gamma".chars().collect(),
        "delta".chars().collect(),
    ];
    assert_eq!(find_line_starts_with(&lines, "beta"), Some(1));
    assert_eq!(find_line_starts_with(&lines, "gamma"), None);
    assert_eq!(find_line_contains(&lines, "gamma"), Some(1));
    assert_eq!(find_line_contains(&lines, "epsilon"), None);
    assert_eq!(find_line_contains(&lines, "delta"), Some(2));
}

#[test]
fn mdy_scanner() {
    let line: Vec<char> = "For Week Ending: 03/14/2020".chars().collect();
    assert_eq!(scan_mdy(&line, true), Some((3, 14, 2020)));
    // permissive year length
    let line: Vec<char> = "date is 1/2/20 okay".chars().collect();
    assert_eq!(scan_mdy(&line, false), Some((1, 2, 20)));
    // a four-digit year is required in exact mode
    assert_eq!(scan_mdy(&line, true), None);
    let line: Vec<char> = "no date here".chars().collect();
    assert_eq!(scan_mdy(&line, false), None);
}

#[test]
fn lmxb463_defect_window_line_is_skipped() {
    // one quality window line carries no value: a per-record defect that
    // is skipped without failing the parse
    let doc = lmxb463_document().replace("SELECT   222", "SELECT");
    let p = lmxb463_text_parse(&doc).unwrap();
    let quality = &section(&p, "quality")[0];
    assert!(quality.entries.iter().all(|e| e.0 != "SELECT"));
    assert_eq!(entry(quality, "CHOICE"), "1,111");
}

#[test]
fn lmxb463_truncated_cutout_is_error() {
    let doc = "For Week Ending: 03/14/2020\nTOTAL LOADS OF PRODUCT REPORTED  10\nWeekly Cutout Value\n".to_string();
    let e = lmxb463_text_parse(&doc).unwrap_err();
    assert_eq!(e, "Cutout value section is truncated.");
}

#[test]
fn lmxb463_omits_optional_sections_without_anchors() {
    let mut lines: Vec<String> = lmxb463_document()
        .lines()
        .map(|l| l.to_string())
        .collect();
    lines.retain(|l| {
        !l.starts_with("Destination breakdown:")
            && !l.starts_with("DOMESTIC")
            && !l.starts_with("EXPORT")
            && !l.starts_with("OVERSEAS")
    });
    let doc = lines.join("\n");
    let p = lmxb463_text_parse(&doc).unwrap();
    assert!(p.sections.iter().all(|s| s.0 != "destination"));
    assert!(p.sections.iter().any(|s| s.0 == "delivery"));
}

#[test]
fn dcgr110_two_price_lines_in_order() {
    let lines = vec![
        "Dodge City, KS    Wed, Jan 5, 2021",
        "HRW WHEAT ORD US NO 1    header",
        "--------",
        "Western Kansas        4.65",
        "Central Kansas        4.75",
        "",
        "CORN US NO 2 header",
        "--------",
        "Central Kansas        3.85",
        "",
        "SORGHUM header",
        "--------",
        "Western Kansas        5.95",
        "",
        "SOYBEANS header",
        "--------",
        "Kansas        9.50",
        "",
    ];
    let doc = lines.join("\n");
    let p = dcgr110_text_parse(&doc).unwrap();
    let wheat = section(&p, "wheat");
    assert_eq!(wheat.len(), 2);
    assert_eq!(wheat[0].independent[1], "Western Kansas");
    assert_eq!(entry(&wheat[0], "bid"), "4.65");
    assert_eq!(wheat[1].independent[1], "Central Kansas");
    assert_eq!(entry(&wheat[1], "bid"), "4.75");
    // the four sections stand in scan order
    let names: Vec<&str> = p.sections.iter().map(|s| s.0.as_str()).collect();
    assert_eq!(names, vec!["wheat", "corn", "sorghum", "soybeans"]);
}
