//! The REST report adapter's verified core: query-URL construction for the
//! three date modes, and envelope/row processing — null dates and null
//! independent values skip the row, a missing declared column is a hard
//! failure, field values are copied verbatim with empty text for null or
//! missing.

use vstd::prelude::*;

use crate::dates::Date;
use crate::legacy::scan_mdy;
use crate::package::USDADataPackageSection;
use crate::schema::DatamartResponse;
use crate::text::str_eq;

verus! {

/// The query URL of one report section under the chosen date mode: an exact
/// date, a minimum-date-to-today range, or the unfiltered report.
pub open spec fn spec_datamart_url(
    slug: Seq<char>,
    section: Seq<char>,
    independent: Seq<char>,
    report_date: Option<Date>,
    minimum_date: Option<Date>,
    today: Date,
) -> Seq<char> {
    let base = "https://mpr.datamart.ams.usda.gov/services/v1.1/reports/"@ + slug + "/"@ + section;
    match report_date {
        Some(d) => base + "?q="@ + independent + "="@ + d.spec_mdy(),
        None => match minimum_date {
            Some(md) => base + "?q="@ + independent + "="@ + md.spec_mdy() + ":"@
                + today.spec_mdy(),
            None => base,
        },
    }
}

pub fn datamart_target_url(
    slug: &str,
    section: &str,
    independent: &str,
    report_date: Option<Date>,
    minimum_date: Option<Date>,
    today: Date,
) -> (s: String)
    ensures
        s@ == spec_datamart_url(slug@, section@, independent@, report_date, minimum_date, today),
{
    let mut s = String::new();
    s.append("https://mpr.datamart.ams.usda.gov/services/v1.1/reports/");
    s.append(slug);
    s.append("/");
    s.append(section);
    match report_date {
        Some(d) => {
            s.append("?q=");
            s.append(independent);
            s.append("=");
            let t = d.format_mdy();
            s.append(t.as_str());
        },
        None => {
            match minimum_date {
                Some(md) => {
                    s.append("?q=");
                    s.append(independent);
                    s.append("=");
                    let t = md.format_mdy();
                    s.append(t.as_str());
                    s.append(":");
                    let t2 = today.format_mdy();
                    s.append(t2.as_str());
                },
                None => {},
            }
        },
    }
    proof {
        assert(s@ =~= spec_datamart_url(
            slug@,
            section@,
            independent@,
            report_date,
            minimum_date,
            today,
        ));
    }
    s
}

/// Outcome of looking a column up in one result row.
pub enum RowLookup {
    Missing,
    Null,
    Value(String),
}

/// First-match lookup of `key` in a result row: `None` when the column is
/// wholly absent, `Some(None)` when present but null, else its text.
pub open spec fn spec_row_lookup(
    row: Seq<(String, Option<String>)>,
    key: Seq<char>,
) -> Option<Option<Seq<char>>>
    decreases row.len(),
{
    if row.len() == 0 {
        None
    } else if row[0].0@ == key {
        match row[0].1 {
            Some(v) => Some(Some(v@)),
            None => Some(None),
        }
    } else {
        spec_row_lookup(row.drop_first(), key)
    }
}

/// First-match lookup of `key` in a result row.
pub fn row_get(row: &Vec<(String, Option<String>)>, key: &str) -> (r: RowLookup)
    ensures
        match r {
            RowLookup::Missing => spec_row_lookup(row@, key@) is None,
            RowLookup::Null => spec_row_lookup(row@, key@) == Some(Option::<Seq<char>>::None),
            RowLookup::Value(v) => spec_row_lookup(row@, key@) == Some(Some(v@)),
        },
{
    let mut i: usize = 0;
    proof {
        assert(row@.subrange(0, row@.len() as int) =~= row@);
    }
    while i < row.len()
        invariant
            i <= row@.len(),
            spec_row_lookup(row@, key@) == spec_row_lookup(
                row@.subrange(i as int, row@.len() as int),
                key@,
            ),
        decreases row@.len() - i,
    {
        let ghost rest = row@.subrange(i as int, row@.len() as int);
        proof {
            assert(rest[0] == row@[i as int]);
            assert(rest.drop_first() =~= row@.subrange(i + 1, row@.len() as int));
        }
        if str_eq(row[i].0.as_str(), key) {
            match &row[i].1 {
                Some(w) => {
                    let v = w.clone();
                    return RowLookup::Value(v);
                },
                None => {
                    return RowLookup::Null;
                },
            }
        }
        i += 1;
    }
    proof {
        assert(row@.subrange(row@.len() as int, row@.len() as int) =~= Seq::<
            (String, Option<String>),
        >::empty());
    }
    RowLookup::Missing
}

/// First-match lookup in the response statistics.
pub open spec fn spec_stat_of(stats: Seq<(String, u32)>, key: Seq<char>) -> Option<u32>
    decreases stats.len(),
{
    if stats.len() == 0 {
        None
    } else if stats[0].0@ == key {
        Some(stats[0].1)
    } else {
        spec_stat_of(stats.drop_first(), key)
    }
}

fn stat_of(stats: &Vec<(String, u32)>, key: &str) -> (r: Option<u32>)
    ensures
        r == spec_stat_of(stats@, key@),
{
    let mut i: usize = 0;
    proof {
        assert(stats@.subrange(0, stats@.len() as int) =~= stats@);
    }
    while i < stats.len()
        invariant
            i <= stats@.len(),
            spec_stat_of(stats@, key@) == spec_stat_of(stats@.subrange(i as int, stats@.len() as int), key@),
        decreases stats@.len() - i,
    {
        let ghost rest = stats@.subrange(i as int, stats@.len() as int);
        if str_eq(stats[i].0.as_str(), key) {
            proof {
                assert(rest[0] == stats@[i as int]);
            }
            return Some(stats[i].1);
        }
        proof {
            assert(rest[0] == stats@[i as int]);
            assert(rest.drop_first() =~= stats@.subrange(i + 1, stats@.len() as int));
        }
        i += 1;
    }
    proof {
        assert(stats@.subrange(stats@.len() as int, stats@.len() as int) =~= Seq::<
            (String, u32),
        >::empty());
    }
    None
}

/// The known server convention: when the returned row count is the allowed
/// row cap plus one, more rows may exist upstream.
pub open spec fn spec_row_cap_hit(stats: Seq<(String, u32)>) -> bool {
    match (spec_stat_of(stats, "returnedRows:"@), spec_stat_of(stats, "userAllowedRows:"@)) {
        (Some(ret), Some(allowed)) => ret == allowed + 1,
        _ => false,
    }
}

pub fn row_cap_hit(stats: &Vec<(String, u32)>) -> (r: bool)
    ensures
        r == spec_row_cap_hit(stats@),
{
    let ret = stat_of(stats, "returnedRows:");
    let allowed = stat_of(stats, "userAllowedRows:");
    match (ret, allowed) {
        (Some(r1), Some(a1)) => a1 < u32::MAX && r1 == a1 + 1,
        _ => false,
    }
}

/// What one result row yields: a hard failure (missing date column,
/// unparseable non-null date, or a declared independent column wholly
/// absent), a skip (null date, or the first not-fully-present independent
/// column null), or a kept record.
pub enum RowOutcome {
    Hard,
    Skip,
    Keep,
}

/// Index of the first declared independent column, from `q` on, whose
/// value is not present-and-non-null, or the column count.
pub open spec fn first_bad_indep(
    row: Seq<(String, Option<String>)>,
    independent: Seq<String>,
    q: int,
) -> int
    decreases independent.len() - q,
{
    if q < 0 || q >= independent.len() {
        independent.len() as int
    } else {
        match spec_row_lookup(row, independent[q]@) {
            Some(Some(v)) => first_bad_indep(row, independent, q + 1),
            _ => q,
        }
    }
}

/// The outcome of one result row under the declared columns.
pub open spec fn spec_row_outcome(
    row: Seq<(String, Option<String>)>,
    lookup: Seq<char>,
    independent: Seq<String>,
) -> RowOutcome {
    match spec_row_lookup(row, lookup) {
        None => RowOutcome::Hard,
        Some(None) => RowOutcome::Skip,
        Some(Some(ds)) => if crate::legacy::line_mdy_date(ds, false) is None {
            RowOutcome::Hard
        } else {
            let q = first_bad_indep(row, independent, 0);
            if q >= independent.len() {
                RowOutcome::Keep
            } else {
                match spec_row_lookup(row, independent[q]@) {
                    None => RowOutcome::Hard,
                    _ => RowOutcome::Skip,
                }
            }
        },
    }
}

/// Some row of the response is a hard failure.
pub open spec fn any_hard_row(
    results: Seq<Vec<(String, Option<String>)>>,
    lookup: Seq<char>,
    independent: Seq<String>,
) -> bool {
    exists|i: int|
        0 <= i < results.len() && spec_row_outcome(
            (#[trigger] results[i])@,
            lookup,
            independent,
        ) is Hard
}

/// The kept rows, from index `i` on, in response order.
pub open spec fn kept_rows_from(
    results: Seq<Vec<(String, Option<String>)>>,
    lookup: Seq<char>,
    independent: Seq<String>,
    i: int,
) -> Seq<Vec<(String, Option<String>)>>
    decreases results.len() - i,
{
    if i < 0 || i >= results.len() {
        Seq::empty()
    } else if spec_row_outcome(results[i]@, lookup, independent) is Keep {
        seq![results[i]] + kept_rows_from(results, lookup, independent, i + 1)
    } else {
        kept_rows_from(results, lookup, independent, i + 1)
    }
}

/// A declared field column's value in the row: its text when present and
/// non-null, empty text otherwise.
pub open spec fn spec_field_value(row: Seq<(String, Option<String>)>, key: Seq<char>) -> Seq<
    char,
> {
    match spec_row_lookup(row, key) {
        Some(Some(v)) => v,
        _ => Seq::empty(),
    }
}

/// The declared field columns, as character sequences.
pub open spec fn field_views(fields: Seq<String>) -> Seq<Seq<char>> {
    Seq::new(fields.len(), |q: int| fields[q]@)
}

/// Every entry key of the record is one of the declared field columns.
pub open spec fn entry_keys_declared(rec: USDADataPackageSection, fields: Seq<String>) -> bool {
    forall|e: int|
        0 <= e < rec.entries@.len() ==> field_views(fields).contains(
            (#[trigger] rec.entries@[e]).0@,
        )
}

/// The record built from one kept row: its date parsed from the row's date
/// text by the permissive month/day/year pattern; an entry for every
/// declared field column holding the row's text verbatim (empty for null
/// or missing) and no entry beyond the declared fields; and the declared
/// independent columns' values, in declared order.
pub open spec fn record_from_row(
    rec: USDADataPackageSection,
    row: Seq<(String, Option<String>)>,
    lookup: Seq<char>,
    fields: Seq<String>,
    independent: Seq<String>,
) -> bool {
    &&& rec.wf()
    &&& rec.report_date.valid()
    &&& (match spec_row_lookup(row, lookup) {
        Some(Some(ds)) => crate::legacy::line_mdy_date(ds, false) == Some(rec.report_date),
        _ => false,
    })
    &&& forall|q: int|
        0 <= q < fields.len() ==> crate::legacy::has_entry_valued(
            rec,
            (#[trigger] fields[q])@,
            spec_field_value(row, fields[q]@),
        )
    &&& entry_keys_declared(rec, fields)
    &&& rec.independent@.len() == independent.len()
    &&& forall|q: int|
        0 <= q < independent.len() ==> (match spec_row_lookup(
            row,
            (#[trigger] independent[q])@,
        ) {
            Some(Some(v)) => rec.independent@[q]@ == v,
            _ => false,
        })
}

proof fn lemma_first_bad_is(
    row: Seq<(String, Option<String>)>,
    independent: Seq<String>,
    from: int,
    q: int,
)
    requires
        0 <= from <= q < independent.len(),
        !(spec_row_lookup(row, independent[q]@) matches Some(Some(v))),
        forall|p: int|
            from <= p < q ==> spec_row_lookup(row, (#[trigger] independent[p])@) matches Some(
                Some(v),
            ),
    ensures
        first_bad_indep(row, independent, from) == q,
    decreases q - from,
{
    if from < q {
        lemma_first_bad_is(row, independent, from + 1, q);
    }
}

proof fn lemma_first_bad_none(
    row: Seq<(String, Option<String>)>,
    independent: Seq<String>,
    from: int,
)
    requires
        0 <= from,
        forall|p: int|
            from <= p < independent.len() ==> spec_row_lookup(
                row,
                (#[trigger] independent[p])@,
            ) matches Some(Some(v)),
    ensures
        first_bad_indep(row, independent, from) == independent.len(),
    decreases independent.len() - from,
{
    if from < independent.len() {
        lemma_first_bad_none(row, independent, from + 1);
    }
}

/// Process the rows of one section response. The processing fails exactly
/// when some row is a hard failure; otherwise the records are, in response
/// order, exactly those built from the kept rows, and every other row is
/// skipped.
pub fn process_datamart_rows(
    lookup: &str,
    fields: &Vec<String>,
    independent: &Vec<String>,
    results: &Vec<Vec<(String, Option<String>)>>,
) -> (r: Result<(Vec<USDADataPackageSection>, usize), String>)
    ensures
        r is Err <==> any_hard_row(results@, lookup@, independent@),
        match r {
            Ok(out) => {
                let kept = kept_rows_from(results@, lookup@, independent@, 0);
                &&& out.0@.len() == kept.len()
                &&& (forall|k: int|
                    0 <= k < kept.len() ==> record_from_row(
                        out.0@[k],
                        (#[trigger] kept[k])@,
                        lookup@,
                        fields@,
                        independent@,
                    ))
                &&& out.0@.len() + out.1 == results@.len()
            },
            Err(_) => true,
        },
{
    let mut records: Vec<USDADataPackageSection> = Vec::new();
    let mut skipped: usize = 0;
    let ghost done: Seq<Vec<(String, Option<String>)>> = Seq::empty();
    proof {
        assert(done + kept_rows_from(results@, lookup@, independent@, 0) =~= kept_rows_from(
            results@,
            lookup@,
            independent@,
            0,
        ));
    }
    let mut ri: usize = 0;
    while ri < results.len()
        invariant
            ri <= results@.len(),
            records@.len() + skipped == ri,
            records@.len() == done.len(),
            forall|k: int|
                0 <= k < done.len() ==> record_from_row(
                    records@[k],
                    (#[trigger] done[k])@,
                    lookup@,
                    fields@,
                    independent@,
                ),
            done + kept_rows_from(results@, lookup@, independent@, ri as int) == kept_rows_from(
                results@,
                lookup@,
                independent@,
                0,
            ),
            forall|i: int|
                0 <= i < ri ==> !(spec_row_outcome(
                    (#[trigger] results@[i])@,
                    lookup@,
                    independent@,
                ) is Hard),
        decreases results@.len() - ri,
    {
        let row = &results[ri];
        let ghost rv = row@;
        let raw_date = match row_get(row, lookup) {
            RowLookup::Missing => {
                proof {
                    assert(spec_row_outcome(rv, lookup@, independent@) is Hard);
                    assert(any_hard_row(results@, lookup@, independent@)) by {
                        assert(spec_row_outcome((results@[ri as int])@, lookup@, independent@) is Hard);
                    }
                }
                return Err(
                    "Failed to find the independent date column in a response row.".to_owned(),
                );
            },
            RowLookup::Null => {
                // upstream defect: a row with no assigned date is skipped
                proof {
                    assert(spec_row_outcome(rv, lookup@, independent@) is Skip);
                    assert(done + (Seq::<Vec<(String, Option<String>)>>::empty()
                        + kept_rows_from(results@, lookup@, independent@, ri + 1)) =~= done
                        + kept_rows_from(results@, lookup@, independent@, ri + 1));
                }
                skipped += 1;
                ri += 1;
                continue ;
            },
            RowLookup::Value(v) => v,
        };
        let ghost date_text = raw_date@;
        let date_chars = crate::text::chars_of_str(raw_date.as_str());
        let date = match scan_mdy(date_chars.as_slice(), false) {
            Some((m, d, y)) => match Date::new(y, m, d) {
                Some(dt) => {
                    proof {
                        let i = choose|i: int|
                            #![trigger crate::legacy::mdy_struct(date_text, i, false)]
                            crate::legacy::mdy_struct(date_text, i, false)
                                && crate::legacy::mdy_values(date_text, i, false) == Some(
                                (m, d, y),
                            ) && forall|j: int|
                                0 <= j < i ==> !crate::legacy::mdy_struct(date_text, j, false);
                        crate::legacy::lemma_first_mdy_is(date_text, false, 0, i);
                        assert(crate::legacy::line_mdy_date(date_text, false) == Some(dt));
                    }
                    dt
                },
                None => {
                    proof {
                        let i = choose|i: int|
                            #![trigger crate::legacy::mdy_struct(date_text, i, false)]
                            crate::legacy::mdy_struct(date_text, i, false)
                                && crate::legacy::mdy_values(date_text, i, false) == Some(
                                (m, d, y),
                            ) && forall|j: int|
                                0 <= j < i ==> !crate::legacy::mdy_struct(date_text, j, false);
                        crate::legacy::lemma_first_mdy_is(date_text, false, 0, i);
                        assert(crate::legacy::line_mdy_date(date_text, false) is None);
                        assert(spec_row_outcome(rv, lookup@, independent@) is Hard);
                        assert(any_hard_row(results@, lookup@, independent@)) by {
                            assert(spec_row_outcome((results@[ri as int])@, lookup@, independent@) is Hard);
                        }
                    }
                    return Err(
                        "Failed to parse independent column from datamart response.".to_owned(),
                    );
                },
            },
            None => {
                proof {
                    if forall|i: int| 0 <= i < date_text.len() ==> !#[trigger] crate::legacy::mdy_struct(
                        date_text,
                        i,
                        false,
                    ) {
                        crate::legacy::lemma_first_mdy_none(date_text, false, 0);
                    } else {
                        let i = choose|i: int|
                            #![trigger crate::legacy::mdy_struct(date_text, i, false)]
                            crate::legacy::mdy_struct(date_text, i, false)
                                && crate::legacy::mdy_values(date_text, i, false) is None
                                && forall|j: int|
                                0 <= j < i ==> !crate::legacy::mdy_struct(date_text, j, false);
                        crate::legacy::lemma_first_mdy_is(date_text, false, 0, i);
                    }
                    assert(crate::legacy::line_mdy_date(date_text, false) is None);
                    assert(spec_row_outcome(rv, lookup@, independent@) is Hard);
                    assert(any_hard_row(results@, lookup@, independent@)) by {
                        assert(spec_row_outcome((results@[ri as int])@, lookup@, independent@) is Hard);
                    }
                }
                return Err(
                    "Failed to parse independent column from datamart response.".to_owned(),
                );
            },
        };
        let mut rec = USDADataPackageSection::new(date);
        let mut fi: usize = 0;
        while fi < fields.len()
            invariant
                fi <= fields@.len(),
                rec.wf(),
                rec.report_date == date,
                rec.independent@.len() == 0,
                rv == results@[ri as int]@,
                row@ == rv,
                ri < results@.len(),
                spec_row_lookup(rv, lookup@) == Some(Some(date_text)),
                crate::legacy::line_mdy_date(date_text, false) == Some(date),
                date.valid(),
                forall|q: int|
                    0 <= q < fi ==> crate::legacy::has_entry_valued(
                        rec,
                        (#[trigger] fields@[q])@,
                        spec_field_value(rv, fields@[q]@),
                    ),
                entry_keys_declared(rec, fields@),
            decreases fields@.len() - fi,
        {
            let column = &fields[fi];
            let value: String = match row_get(row, column.as_str()) {
                RowLookup::Value(v) => v,
                _ => String::new(),
            };
            proof {
                assert(value@ == spec_field_value(rv, fields@[fi as int]@));
            }
            let ghost before = rec;
            let ghost key_view = column@;
            rec.set_entry(column.clone(), value);
            proof {
                assert forall|q: int|
                    0 <= q < fi + 1 implies crate::legacy::has_entry_valued(
                    rec,
                    (#[trigger] fields@[q])@,
                    spec_field_value(rv, fields@[q]@),
                ) by {
                    if q < fi && fields@[q]@ != key_view {
                        let ke = choose|ke: int|
                            0 <= ke < before.entries@.len() && (#[trigger] before.entries@[ke]).0@
                                == fields@[q]@ && before.entries@[ke].1@ == spec_field_value(
                                rv,
                                fields@[q]@,
                            );
                        assert(rec.entries@.contains(before.entries@[ke]));
                        let kj = choose|kj: int|
                            0 <= kj < rec.entries@.len() && rec.entries@[kj]
                                == before.entries@[ke];
                        assert(rec.entries@[kj].0@ == fields@[q]@);
                    } else {
                        assert(rec.entry_keys().contains(key_view));
                        let kj = choose|kj: int|
                            0 <= kj < rec.entry_keys().len() && rec.entry_keys()[kj] == key_view;
                        assert(rec.entries@[kj].0@ == key_view);
                        assert(rec.entries@[kj].1@ == spec_field_value(rv, fields@[fi as int]@));
                    }
                }
                assert(entry_keys_declared(rec, fields@)) by {
                    assert forall|e: int|
                        0 <= e < rec.entries@.len() implies field_views(fields@).contains(
                        (#[trigger] rec.entries@[e]).0@,
                    ) by {
                        if rec.entries@[e].0@ == key_view {
                            assert(field_views(fields@)[fi as int] == key_view);
                        } else {
                            assert(before.entries@.contains(rec.entries@[e]));
                            let ke = choose|ke: int|
                                0 <= ke < before.entries@.len() && before.entries@[ke]
                                    == rec.entries@[e];
                            assert(field_views(fields@).contains(before.entries@[ke].0@));
                        }
                    }
                }
            }
            fi += 1;
        }
        proof {
            assert(entry_keys_declared(rec, fields@));
        }
        let mut ii: usize = 0;
        let mut row_ok = true;
        let mut indep: Vec<String> = Vec::new();
        while ii < independent.len() && row_ok
            invariant
                ii <= independent@.len(),
                rv == results@[ri as int]@,
                row@ == rv,
                ri < results@.len(),
                spec_row_lookup(rv, lookup@) == Some(Some(date_text)),
                crate::legacy::line_mdy_date(date_text, false) == Some(date),
                date.valid(),
                row_ok ==> indep@.len() == ii,
                row_ok ==> forall|p: int|
                    0 <= p < ii ==> spec_row_lookup(rv, (#[trigger] independent@[p])@) matches Some(
                        Some(v),
                    ),
                row_ok ==> forall|p: int|
                    0 <= p < ii ==> (match spec_row_lookup(rv, (#[trigger] independent@[p])@) {
                        Some(Some(v)) => indep@[p]@ == v,
                        _ => false,
                    }),
                !row_ok ==> spec_row_outcome(rv, lookup@, independent@) is Skip,
            decreases independent@.len() - ii + if row_ok {
                1int
            } else {
                0int
            },
        {
            let column = &independent[ii];
            match row_get(row, column.as_str()) {
                RowLookup::Missing => {
                    proof {
                        lemma_first_bad_is(rv, independent@, 0, ii as int);
                        assert(spec_row_outcome(rv, lookup@, independent@) is Hard);
                        assert(any_hard_row(results@, lookup@, independent@)) by {
                            assert(spec_row_outcome(
                                (results@[ri as int])@,
                                lookup@,
                                independent@,
                            ) is Hard);
                        }
                    }
                    return Err("Failed to find independent column in response row.".to_owned());
                },
                RowLookup::Null => {
                    // a null independent value skips the whole row
                    proof {
                        lemma_first_bad_is(rv, independent@, 0, ii as int);
                        assert(spec_row_outcome(rv, lookup@, independent@) is Skip);
                    }
                    row_ok = false;
                },
                RowLookup::Value(v) => {
                    indep.push(v);
                    ii += 1;
                },
            }
        }
        if row_ok {
            let ghost rec0 = rec;
            rec.independent = indep;
            proof {
                assert(rec.entries@ == rec0.entries@);
                assert(rec.wf()) by {
                    assert forall|a: int, b: int|
                        0 <= a < b < rec.entries@.len() implies (#[trigger] rec.entries@[a]).0@
                        != (#[trigger] rec.entries@[b]).0@ by {
                        assert(rec.entries@[a] == rec0.entries@[a]);
                        assert(rec.entries@[b] == rec0.entries@[b]);
                        assert(rec0.entries@[a].0@ != rec0.entries@[b].0@);
                    }
                }
                assert forall|q: int|
                    0 <= q < fields@.len() implies crate::legacy::has_entry_valued(
                    rec,
                    (#[trigger] fields@[q])@,
                    spec_field_value(rv, fields@[q]@),
                ) by {
                    assert(crate::legacy::has_entry_valued(
                        rec0,
                        fields@[q]@,
                        spec_field_value(rv, fields@[q]@),
                    ));
                    let e = choose|e: int|
                        0 <= e < rec0.entries@.len() && (#[trigger] rec0.entries@[e]).0@
                            == fields@[q]@ && rec0.entries@[e].1@ == spec_field_value(
                            rv,
                            fields@[q]@,
                        );
                    assert(rec.entries@[e] == rec0.entries@[e]);
                }
                assert(entry_keys_declared(rec, fields@)) by {
                    assert forall|e: int|
                        0 <= e < rec.entries@.len() implies field_views(fields@).contains(
                        (#[trigger] rec.entries@[e]).0@,
                    ) by {
                        assert(rec.entries@[e] == rec0.entries@[e]);
                        assert(field_views(fields@).contains(rec0.entries@[e].0@));
                    }
                }
            }
        }
        let ghost old_done = done;
        let ghost old_records = records@;
        if row_ok {
            proof {
                lemma_first_bad_none(rv, independent@, 0);
                assert(spec_row_outcome(rv, lookup@, independent@) is Keep);
                assert(record_from_row(rec, rv, lookup@, fields@, independent@));
                done = done.push(results@[ri as int]);
            }
            records.push(rec);
            proof {
                assert forall|k: int|
                    0 <= k < done.len() implies record_from_row(
                    records@[k],
                    (#[trigger] done[k])@,
                    lookup@,
                    fields@,
                    independent@,
                ) by {
                    if k < old_done.len() {
                        assert(done[k] == old_done[k]);
                        assert(records@[k] == old_records[k]);
                    }
                }
                assert((old_done + (seq![results@[ri as int]] + kept_rows_from(
                    results@,
                    lookup@,
                    independent@,
                    ri + 1,
                ))) =~= (done + kept_rows_from(results@, lookup@, independent@, ri + 1)));
            }
        } else {
            skipped += 1;
            proof {
                assert(done + (Seq::<Vec<(String, Option<String>)>>::empty() + kept_rows_from(
                    results@,
                    lookup@,
                    independent@,
                    ri + 1,
                )) =~= done + kept_rows_from(results@, lookup@, independent@, ri + 1));
            }
        }
        ri += 1;
    }
    proof {
        assert(kept_rows_from(results@, lookup@, independent@, results@.len() as int) =~= Seq::<
            Vec<(String, Option<String>)>,
        >::empty());
        assert(done + Seq::<Vec<(String, Option<String>)>>::empty() =~= done);
        if any_hard_row(results@, lookup@, independent@) {
            let i = choose|i: int|
                0 <= i < results@.len() && spec_row_outcome(
                    (#[trigger] results@[i])@,
                    lookup@,
                    independent@,
                ) is Hard;
            assert(false);
        }
    }
    Ok((records, skipped))
}

/// Process one whole section response: a missing result list is a
/// failure; otherwise the rows are processed exactly as
/// `process_datamart_rows` states, and the row-cap warning is reported.
pub fn process_datamart_response(
    lookup: &str,
    fields: &Vec<String>,
    independent: &Vec<String>,
    response: &DatamartResponse,
) -> (r: Result<(Vec<USDADataPackageSection>, usize, bool), String>)
    ensures
        match response.results {
            Some(rows) => r is Err <==> any_hard_row(rows@, lookup@, independent@),
            None => r is Err,
        },
        match r {
            Ok(out) => (match response.results {
                Some(rows) => {
                    let kept = kept_rows_from(rows@, lookup@, independent@, 0);
                    &&& out.0@.len() == kept.len()
                    &&& (forall|k: int|
                        0 <= k < kept.len() ==> record_from_row(
                            out.0@[k],
                            (#[trigger] kept[k])@,
                            lookup@,
                            fields@,
                            independent@,
                        ))
                    &&& out.0@.len() + out.1 == rows@.len()
                },
                None => false,
            }) && out.2 == spec_row_cap_hit(response.stats@),
            Err(_) => true,
        },
{
    let warning = row_cap_hit(&response.stats);
    match &response.results {
        Some(rows) => {
            match process_datamart_rows(lookup, fields, independent, rows) {
                Ok((records, skipped)) => Ok((records, skipped, warning)),
                Err(e) => Err(e),
            }
        },
        None => Err("No results found.".to_owned()),
    }
}

} // verus!
