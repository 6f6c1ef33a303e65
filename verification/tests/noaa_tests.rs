use std::convert::TryInto;
use std::io::Cursor;
use std::io::Write;

use data_acquisition::flags::{MeasurementFlag, QualityFlag};
use data_acquisition::noaa::{
    encode_group, from_observations, noaa_structure, parse_group, parse_observation_line,
    process_noaa, DailyObservation, DaySlot,
};

// note: this data is made up so that we see a variety in the response, so don't worry about weird flags
const TEST_STRING: &str = r#"AE000041196194403TAVG-9999   -9999   -9999   -9999   -9999   -9999   -9999   -9999   -9999   -9999   -9999   -9999   -9999   -9999   -9999   -9999   -9999   -9999   -9999     292H S  274H S  242H S  250H S  263H S  257H S  233H S  239H S  217H S  245H S  292H S  260H S
AE000041196194404TMAX  258  I  263  I  258  I  263  I  296  I  302  I  358  I  391  I  380  I  308  I  291  I  274  I  280  I  369  I  330 KI  335B I  385  I  385  I  374  I  374  I  313  I  308  I  308  I  302  I  313  I  330  I  335  I  302  I  313  I  346  I-9999   
AE000041196194404TMIN  180  I  180  I  163  I  146  I  135  I-9999   -9999     196  I  235  I  213  I  163  I-9999     180  I  174  I-9999     196  I  241  I  235  I  208  I  196  I  208  I  213  I  180  I  174  I  180  I  180  I  169  I  152  I  169  I  169  I-9999   
"#;

fn test_archive() -> Vec<u8> {
    let cursor = Cursor::new(TEST_STRING);

    let mut header = tar::Header::new_gnu();
    header.set_path("foo.dly").unwrap();
    header.set_size(TEST_STRING.len().try_into().unwrap());
    header.set_cksum();

    let mut archive = tar::Builder::new(Vec::new());
    archive.append(&header, cursor).unwrap();
    let archive = archive.into_inner().unwrap();

    let mut encoder = flate2::write::GzEncoder::new(Vec::new(), flate2::Compression::default());
    encoder.write_all(&archive[..]).unwrap();
    encoder.finish().unwrap()
}

#[test]
fn test_process_noaa() {
    let result = test_archive();
    let results = process_noaa(&result, Some("TAVG".to_string()), Some("US".to_owned())).unwrap();
    for observation in results {
        println!("{:?}", observation);
    }
}

#[test]
fn test_from_noaa() {
    let result = test_archive();
    let results = process_noaa(&result, None, None).unwrap();
    let converted_result = from_observations(results);
    println!("{:#?}", converted_result)
}

#[test]
fn test_noaa_structure() {
    println!("{:?}", noaa_structure())
}

#[test]
fn process_noaa_decodes_all_records() {
    let result = test_archive();
    let results = process_noaa(&result, None, None).unwrap();
    assert_eq!(results.len(), 3);
    assert_eq!(results[0].element, "TAVG");
    assert_eq!(results[1].element, "TMAX");
    assert_eq!(results[2].element, "TMIN");
    for o in &results {
        assert_eq!(o.observations.len(), 31);
        assert_eq!(o.station_id, "AE000041196");
    }
}

#[test]
fn process_noaa_element_filter() {
    let result = test_archive();
    let results = process_noaa(&result, Some("TMAX".to_string()), None).unwrap();
    assert_eq!(results.len(), 1);
    assert_eq!(results[0].element, "TMAX");
    // case-insensitive station prefix
    let results = process_noaa(&result, None, Some("ae".to_string())).unwrap();
    assert_eq!(results.len(), 3);
}

#[test]
fn positional_line_decodes_day_one() {
    // the second line: station AE000041196, April 1944, TMAX
    let line: Vec<char> = TEST_STRING.lines().nth(1).unwrap().chars().collect();
    assert_eq!(line.len(), 269);
    let obs = parse_observation_line(&line).unwrap();
    assert_eq!(obs.station_id, "AE000041196");
    assert_eq!(obs.year, 1944);
    assert_eq!(obs.month, 4);
    assert_eq!(obs.element, "TMAX");
    assert_eq!(obs.observations.len(), 31);
    assert_eq!(
        obs.observations[0],
        DaySlot::Decoded(DailyObservation {
            value: Some(258),
            measure_flag: None,
            quality_flag: None,
            source_flag: 'I',
        })
    );
}

#[test]
fn sentinel_decodes_to_absent() {
    let group: Vec<char> = "-9999   ".chars().collect();
    match parse_group(&group, 0) {
        DaySlot::Decoded(d) => {
            assert_eq!(d.value, None);
            assert_ne!(d.value, Some(-9999));
        }
        DaySlot::Undecodable => panic!("sentinel group must decode"),
    }
    // the last day of the TMAX line is the sentinel
    let line: Vec<char> = TEST_STRING.lines().nth(1).unwrap().chars().collect();
    let obs = parse_observation_line(&line).unwrap();
    match obs.observations[30] {
        DaySlot::Decoded(d) => assert_eq!(d.value, None),
        DaySlot::Undecodable => panic!("sentinel slot must decode"),
    }
}

#[test]
fn unrecognized_flag_is_decode_error() {
    // '?' is not a measurement flag code
    let group: Vec<char> = "  258? I".chars().collect();
    assert_eq!(parse_group(&group, 0), DaySlot::Undecodable);
    // 'Q' is not a quality flag code
    let group: Vec<char> = "  258 QI".chars().collect();
    assert_eq!(parse_group(&group, 0), DaySlot::Undecodable);
    // 'K' is valid for both tables
    let group: Vec<char> = "  330 KI".chars().collect();
    assert_eq!(
        parse_group(&group, 0),
        DaySlot::Decoded(DailyObservation {
            value: Some(330),
            measure_flag: None,
            quality_flag: Some(QualityFlag::StreakFrequent),
            source_flag: 'I',
        })
    );
}

#[test]
fn group_round_trip() {
    let cases = vec![
        DailyObservation {
            value: Some(258),
            measure_flag: None,
            quality_flag: None,
            source_flag: 'I',
        },
        DailyObservation {
            value: Some(-123),
            measure_flag: Some(MeasurementFlag::HourlyPoint),
            quality_flag: Some(QualityFlag::Gap),
            source_flag: 'S',
        },
        DailyObservation {
            value: Some(99999),
            measure_flag: Some(MeasurementFlag::TraceOfPrecipitation),
            quality_flag: None,
            source_flag: '0',
        },
        DailyObservation {
            value: None,
            measure_flag: None,
            quality_flag: None,
            source_flag: ' ',
        },
        DailyObservation {
            value: Some(0),
            measure_flag: None,
            quality_flag: Some(QualityFlag::FlaggedDatzilla),
            source_flag: 'W',
        },
    ];
    for d in cases {
        let encoded = encode_group(&d);
        assert_eq!(encoded.len(), 8);
        assert_eq!(parse_group(&encoded, 0), DaySlot::Decoded(d));
    }
}

#[test]
fn flag_code_tables_are_closed() {
    assert_eq!(
        MeasurementFlag::from_code('B'),
        Some(MeasurementFlag::PrecipitationTotalFromTwoTwelveHourTotals)
    );
    assert_eq!(MeasurementFlag::from_code('T'), Some(MeasurementFlag::TraceOfPrecipitation));
    assert_eq!(MeasurementFlag::from_code('Q'), None);
    assert_eq!(MeasurementFlag::from_code('b'), None);
    assert_eq!(QualityFlag::from_code('Z'), Some(QualityFlag::FlaggedDatzilla));
    assert_eq!(QualityFlag::from_code('B'), None);
    assert_eq!(MeasurementFlag::HourlyPoint.name(), "HourlyPoint");
    assert_eq!(QualityFlag::TooWarmForSnow.name(), "TooWarmForSnow");
    assert_eq!(MeasurementFlag::HourlyPoint.code(), 'H');
    assert_eq!(QualityFlag::Duplicate.code(), 'D');
}

#[test]
fn from_observations_keeps_only_present_values() {
    let result = test_archive();
    let results = process_noaa(&result, None, None).unwrap();
    let package = from_observations(results);
    assert_eq!(package.name, "NOAA");
    // TAVG: 12 present values, TMAX: 30, TMIN: 26
    let mut by_name = std::collections::HashMap::new();
    for (name, records) in &package.sections {
        by_name.insert(name.clone(), records.len());
    }
    assert_eq!(by_name.get("TAVG"), Some(&12));
    assert_eq!(by_name.get("TMAX"), Some(&30));
    assert_eq!(by_name.get("TMIN"), Some(&26));
}

#[test]
fn noaa_structure_shape() {
    let c = noaa_structure();
    assert_eq!(c.name, "NOAA");
    assert_eq!(c.independent, "report_date");
    assert_eq!(c.sections.len(), 4);
    let names: Vec<&str> = c.sections.iter().map(|s| s.0.as_str()).collect();
    assert_eq!(names, vec!["TMAX", "TMIN", "TAVG", "EVAP"]);
    for (_, section) in &c.sections {
        assert!(section.alias.is_none());
        assert_eq!(section.independent, vec!["report_date", "station_id"]);
        assert_eq!(
            section.fields,
            vec!["measure_flag", "source_flag", "quality_flag", "value"]
        );
    }
}

#[test]
fn noaa_observation_row_plan() {
    let line: Vec<char> = TEST_STRING.lines().nth(1).unwrap().chars().collect();
    let obs = parse_observation_line(&line).unwrap();
    let rows = data_acquisition::persist::noaa_observation_rows(&obs);
    // 30 present values, four variable rows each
    assert_eq!(rows.len(), 4 * 30);
    assert_eq!(rows[0].variable_name, "quality_flag");
    assert_eq!(rows[1].variable_name, "source_flag");
    assert_eq!(rows[1].value_text, "I");
    assert_eq!(rows[2].variable_name, "measure_flag");
    assert_eq!(rows[3].variable_name, "value");
    assert_eq!(rows[3].value_numeric, Some(258));
    assert_eq!(rows[3].value_text, "258");
    for r in &rows {
        assert_eq!(r.station_id, "AE000041196");
        assert_eq!(r.report_date.year, 1944);
        assert_eq!(r.report_date.month, 4);
    }
    assert_eq!(data_acquisition::persist::noaa_insert_sql("TMAX").contains("noaa_TMAX"), true);
}
