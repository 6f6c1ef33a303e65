//! The persistence layer's verified core: table identity, idempotent DDL,
//! upsert DML, and the row plan a package yields — one row per non-empty
//! entry, the raw text always carried, a comma-stripped candidate for the
//! numeric column. A model of conflict-ignore writes shows the plan is
//! idempotent.

use vstd::prelude::*;

use crate::dates::Date;
use crate::noaa::{DaySlot, Observation};
use crate::package::USDADataPackageSection;
use crate::schema::DatamartConfig;
use crate::text::{
    dec_digits, format_i32, is_ascii_letter, is_digit, lower_char, lower_char_exec, lower_seq,
    push_u64, spec_int_seq,
};

verus! {

/// Lower-case a whole string (ASCII folding).
pub fn lower_string(s: &str) -> (r: String)
    ensures
        r@ == lower_seq(s@),
{
    let chars = crate::text::chars_of_str(s);
    let n = chars.len();
    let mut r = String::new();
    let mut i: usize = 0;
    while i < n
        invariant
            i <= n == chars@.len(),
            chars@ == s@,
            r@ == lower_seq(s@).subrange(0, i as int),
        decreases n - i,
    {
        r.push(lower_char_exec(chars[i]));
        proof {
            assert(lower_seq(s@)[i as int] == lower_char(s@[i as int]));
            assert(r@ =~= lower_seq(s@).subrange(0, i + 1));
        }
        i += 1;
    }
    proof {
        assert(lower_seq(s@).subrange(0, n as int) =~= lower_seq(s@));
    }
    r
}

/// Table identity: the lower-cased report name and section name (or the
/// section's storage alias, when one is declared), joined by an underscore.
pub open spec fn spec_table_name(
    report: Seq<char>,
    section: Seq<char>,
    alias: Option<Seq<char>>,
) -> Seq<char> {
    lower_seq(
        report + "_"@ + match alias {
            Some(a) => a,
            None => section,
        },
    )
}

pub fn table_name(report: &str, section: &str, alias: &Option<String>) -> (r: String)
    ensures
        r@ == spec_table_name(
            report@,
            section@,
            match alias {
                Some(a) => Some(a@),
                None => None,
            },
        ),
{
    let mut joined = String::new();
    joined.append(report);
    joined.append("_");
    match alias {
        Some(a) => {
            joined.append(a.as_str());
        },
        None => {
            joined.append(section);
        },
    }
    let r = lower_string(joined.as_str());
    proof {
        assert(r@ =~= spec_table_name(
            report@,
            section@,
            match alias {
                Some(a) => Some(a@),
                None => None,
            },
        ));
    }
    r
}

/// The additional independent columns' DDL fragment, from index `i` on.
pub open spec fn ddl_cols_from(cols: Seq<String>, i: int) -> Seq<char>
    decreases cols.len() - i,
{
    if i < 0 || i >= cols.len() {
        Seq::empty()
    } else {
        "\""@ + cols[i]@ + "\" text not null, "@ + ddl_cols_from(cols, i + 1)
    }
}

/// The additional independent columns' primary-key fragment.
pub open spec fn pk_cols_from(cols: Seq<String>, i: int) -> Seq<char>
    decreases cols.len() - i,
{
    if i < 0 || i >= cols.len() {
        Seq::empty()
    } else {
        ", \""@ + cols[i]@ + "\""@ + pk_cols_from(cols, i + 1)
    }
}

/// Idempotent table DDL: the date column, one text column per additional
/// independent column, the variable/value/value-text trailer, and the
/// composite primary key over date, variable name and the additional
/// independent columns.
pub open spec fn spec_create_table_sql(name: Seq<char>, independent: Seq<String>) -> Seq<char> {
    "CREATE TABLE IF NOT EXISTS "@ + name + " (report_date date not null, "@ + ddl_cols_from(
        independent,
        1,
    ) + "variable_name text not null, value real, value_text text, constraint "@ + name
        + "_pkeys primary key (report_date, variable_name"@ + pk_cols_from(independent, 1) + "));"@
}

pub fn create_table_sql(name: &str, independent: &Vec<String>) -> (s: String)
    requires
        independent@.len() >= 1,
    ensures
        s@ == spec_create_table_sql(name@, independent@),
{
    let n = independent.len();
    let mut cols = String::new();
    let mut i: usize = 1;
    while i < n
        invariant
            1 <= i <= n == independent@.len(),
            ddl_cols_from(independent@, 1) == cols@ + ddl_cols_from(independent@, i as int),
        decreases n - i,
    {
        let ghost before = cols@;
        cols.append("\"");
        cols.append(independent[i].as_str());
        cols.append("\" text not null, ");
        proof {
            assert(cols@ =~= before + ("\""@ + independent@[i as int]@ + "\" text not null, "@));
            assert(ddl_cols_from(independent@, i as int) =~= ("\""@ + independent@[i as int]@
                + "\" text not null, "@) + ddl_cols_from(independent@, i + 1));
            assert(ddl_cols_from(independent@, 1) =~= cols@ + ddl_cols_from(independent@, i + 1));
        }
        i += 1;
    }
    let mut pk = String::new();
    let mut i: usize = 1;
    while i < n
        invariant
            1 <= i <= n == independent@.len(),
            pk_cols_from(independent@, 1) == pk@ + pk_cols_from(independent@, i as int),
        decreases n - i,
    {
        let ghost before = pk@;
        pk.append(", \"");
        pk.append(independent[i].as_str());
        pk.append("\"");
        proof {
            assert(pk@ =~= before + (", \""@ + independent@[i as int]@ + "\""@));
            assert(pk_cols_from(independent@, i as int) =~= (", \""@ + independent@[i as int]@
                + "\""@) + pk_cols_from(independent@, i + 1));
            assert(pk_cols_from(independent@, 1) =~= pk@ + pk_cols_from(independent@, i + 1));
        }
        i += 1;
    }
    let mut s = String::new();
    s.append("CREATE TABLE IF NOT EXISTS ");
    s.append(name);
    s.append(" (report_date date not null, ");
    s.append(cols.as_str());
    s.append("variable_name text not null, value real, value_text text, constraint ");
    s.append(name);
    s.append("_pkeys primary key (report_date, variable_name");
    s.append(pk.as_str());
    s.append("));");
    proof {
        assert(s@ =~= spec_create_table_sql(name@, independent@));
    }
    s
}

/// The parameter list `$1,$2,...,$k`.
pub open spec fn dollars(k: nat) -> Seq<char>
    decreases k,
{
    if k == 0 {
        Seq::empty()
    } else if k == 1 {
        seq!['$'] + dec_digits(1)
    } else {
        dollars((k - 1) as nat) + seq![','] + seq!['$'] + dec_digits(k)
    }
}

/// The insert columns' fragment, from index `i` on.
pub open spec fn ins_cols_from(cols: Seq<String>, i: int) -> Seq<char>
    decreases cols.len() - i,
{
    if i < 0 || i >= cols.len() {
        Seq::empty()
    } else {
        "\""@ + cols[i]@ + "\", "@ + ins_cols_from(cols, i + 1)
    }
}

/// Conflict-ignore upsert DML against the composite key.
pub open spec fn spec_insert_sql(table: Seq<char>, independent: Seq<String>) -> Seq<char> {
    "INSERT INTO "@ + table + " (report_date, "@ + ins_cols_from(independent, 1)
        + "variable_name, value, value_text) VALUES("@ + dollars((independent.len() + 3) as nat)
        + ") ON CONFLICT ON CONSTRAINT "@ + table + "_pkeys DO NOTHING"@
}

pub fn insert_sql(table: &str, independent: &Vec<String>) -> (s: String)
    requires
        independent@.len() >= 1,
        independent@.len() <= 100000,
    ensures
        s@ == spec_insert_sql(table@, independent@),
{
    let n = independent.len();
    let mut cols = String::new();
    let mut i: usize = 1;
    while i < n
        invariant
            1 <= i <= n == independent@.len(),
            ins_cols_from(independent@, 1) == cols@ + ins_cols_from(independent@, i as int),
        decreases n - i,
    {
        let ghost before = cols@;
        cols.append("\"");
        cols.append(independent[i].as_str());
        cols.append("\", ");
        proof {
            assert(cols@ =~= before + ("\""@ + independent@[i as int]@ + "\", "@));
            assert(ins_cols_from(independent@, i as int) =~= ("\""@ + independent@[i as int]@
                + "\", "@) + ins_cols_from(independent@, i + 1));
            assert(ins_cols_from(independent@, 1) =~= cols@ + ins_cols_from(independent@, i + 1));
        }
        i += 1;
    }
    let params_n = n + 3;
    let mut params = String::new();
    let mut i: usize = 1;
    while i <= params_n
        invariant
            1 <= i <= params_n + 1,
            params_n == n + 3,
            n == independent@.len(),
            n <= 100000,
            params@ == dollars((i - 1) as nat),
        decreases params_n + 1 - i,
    {
        let ghost before = params@;
        if i > 1 {
            params.push(',');
        }
        params.push('$');
        push_u64(&mut params, i as u64);
        proof {
            if i == 1 {
                assert(params@ =~= dollars(1));
            } else {
                assert(params@ =~= dollars((i - 1) as nat) + seq![','] + seq!['$'] + dec_digits(
                    i as nat,
                ));
                assert(params@ =~= dollars(i as nat));
            }
        }
        i += 1;
    }
    let mut s = String::new();
    s.append("INSERT INTO ");
    s.append(table);
    s.append(" (report_date, ");
    s.append(cols.as_str());
    s.append("variable_name, value, value_text) VALUES(");
    s.append(params.as_str());
    s.append(") ON CONFLICT ON CONSTRAINT ");
    s.append(table);
    s.append("_pkeys DO NOTHING");
    proof {
        assert(s@ =~= spec_insert_sql(table@, independent@));
    }
    s
}

/// A value with its thousands separators removed.
pub open spec fn spec_strip_commas(s: Seq<char>) -> Seq<char>
    decreases s.len(),
{
    if s.len() == 0 {
        s
    } else if s.last() == ',' {
        spec_strip_commas(s.drop_last())
    } else {
        spec_strip_commas(s.drop_last()).push(s.last())
    }
}

pub fn strip_commas(s: &str) -> (r: String)
    ensures
        r@ == spec_strip_commas(s@),
{
    let chars = crate::text::chars_of_str(s);
    let n = chars.len();
    let mut r = String::new();
    let mut i: usize = 0;
    while i < n
        invariant
            i <= n == chars@.len(),
            chars@ == s@,
            r@ == spec_strip_commas(s@.subrange(0, i as int)),
        decreases n - i,
    {
        let c = chars[i];
        proof {
            assert(s@.subrange(0, i + 1).drop_last() =~= s@.subrange(0, i as int));
            assert(s@.subrange(0, i + 1).last() == s@[i as int]);
        }
        if c != ',' {
            r.push(c);
        }
        i += 1;
    }
    proof {
        assert(s@.subrange(0, n as int) =~= s@);
    }
    r
}

/// One planned upsert row.
pub struct RowPlan {
    pub report_date: Date,
    pub independent: Vec<String>,
    pub variable_name: String,
    pub numeric_candidate: String,
    pub value_text: String,
}

/// The entries of a record that carry a non-empty raw value, in order.
pub open spec fn kept_entries(entries: Seq<(String, String)>) -> Seq<(String, String)>
    decreases entries.len(),
{
    if entries.len() == 0 {
        Seq::empty()
    } else if entries.last().1@.len() > 0 {
        kept_entries(entries.drop_last()).push(entries.last())
    } else {
        kept_entries(entries.drop_last())
    }
}

/// The planned row carries exactly this entry of the record: the raw value
/// verbatim as text, the comma-stripped candidate for the numeric column,
/// the record's date, and its additional independent values in order.
pub open spec fn row_matches_entry(
    rec: USDADataPackageSection,
    entry: (String, String),
    row: RowPlan,
) -> bool {
    &&& row.variable_name@ == entry.0@
    &&& row.value_text@ == entry.1@
    &&& row.value_text@.len() > 0
    &&& row.numeric_candidate@ == spec_strip_commas(entry.1@)
    &&& row.report_date == rec.report_date
    &&& row.independent@.len() == rec.independent@.len() - 1
    &&& forall|m: int|
        0 <= m < row.independent@.len() ==> (#[trigger] row.independent@[m])@
            == rec.independent@[m + 1]@
}

/// Plan the upsert rows of one record: the rows are, in entry order,
/// exactly one per entry with a non-empty raw value — an empty raw value
/// is never written, neither as a number nor as text.
pub fn record_rows(rec: &USDADataPackageSection) -> (r: Vec<RowPlan>)
    requires
        rec.independent@.len() >= 1,
    ensures
        r@.len() == kept_entries(rec.entries@).len(),
        forall|k: int|
            0 <= k < r@.len() ==> row_matches_entry(
                *rec,
                kept_entries(rec.entries@)[k],
                #[trigger] r@[k],
            ),
{
    let mut rows: Vec<RowPlan> = Vec::new();
    let mut ei: usize = 0;
    while ei < rec.entries.len()
        invariant
            ei <= rec.entries@.len(),
            rec.independent@.len() >= 1,
            rows@.len() == kept_entries(rec.entries@.subrange(0, ei as int)).len(),
            forall|k: int|
                0 <= k < rows@.len() ==> row_matches_entry(
                    *rec,
                    kept_entries(rec.entries@.subrange(0, ei as int))[k],
                    #[trigger] rows@[k],
                ),
        decreases rec.entries@.len() - ei,
    {
        let ghost pre = rec.entries@.subrange(0, ei as int);
        let ghost post = rec.entries@.subrange(0, ei + 1);
        proof {
            assert(post.drop_last() =~= pre);
            assert(post.last() == rec.entries@[ei as int]);
        }
        let value = &rec.entries[ei].1;
        if value.as_str().unicode_len() > 0 {
            let mut indep: Vec<String> = Vec::new();
            let mut m: usize = 1;
            while m < rec.independent.len()
                invariant
                    1 <= m <= rec.independent@.len(),
                    indep@.len() == m - 1,
                    forall|q: int|
                        0 <= q < indep@.len() ==> (#[trigger] indep@[q])@ == rec.independent@[q
                            + 1]@,
                decreases rec.independent@.len() - m,
            {
                indep.push(rec.independent[m].clone());
                m += 1;
            }
            let row = RowPlan {
                report_date: rec.report_date,
                independent: indep,
                variable_name: rec.entries[ei].0.clone(),
                numeric_candidate: strip_commas(value.as_str()),
                value_text: value.clone(),
            };
            proof {
                assert(row_matches_entry(*rec, rec.entries@[ei as int], row));
            }
            let ghost old_rows = rows@;
            rows.push(row);
            proof {
                assert(kept_entries(post) =~= kept_entries(pre).push(rec.entries@[ei as int]));
                assert forall|k: int|
                    0 <= k < rows@.len() implies row_matches_entry(
                    *rec,
                    kept_entries(post)[k],
                    #[trigger] rows@[k],
                ) by {
                    if k < old_rows.len() {
                        assert(rows@[k] == old_rows[k]);
                        assert(kept_entries(post)[k] == kept_entries(pre)[k]);
                    } else {
                        assert(rows@[k] == row);
                        assert(kept_entries(post)[k] == rec.entries@[ei as int]);
                    }
                }
            }
        }
        ei += 1;
    }
    proof {
        assert(rec.entries@.subrange(0, rec.entries@.len() as int) =~= rec.entries@);
    }
    rows
}

/// The composite key of a planned row: date, the additional independent
/// values, and the variable name.
pub open spec fn row_key(r: RowPlan) -> (Date, Seq<Seq<char>>, Seq<char>) {
    (
        r.report_date,
        Seq::new(r.independent@.len(), |i: int| r.independent@[i]@),
        r.variable_name@,
    )
}

/// Conflict-ignore writes over a table modelled as the set of present keys.
pub open spec fn apply_rows(
    t: Set<(Date, Seq<Seq<char>>, Seq<char>)>,
    rows: Seq<RowPlan>,
) -> Set<(Date, Seq<Seq<char>>, Seq<char>)>
    decreases rows.len(),
{
    if rows.len() == 0 {
        t
    } else {
        apply_rows(t.insert(row_key(rows[0])), rows.drop_first())
    }
}

/// The keys a row plan writes.
pub open spec fn row_keys(rows: Seq<RowPlan>) -> Set<(Date, Seq<Seq<char>>, Seq<char>)> {
    Set::new(|k: (Date, Seq<Seq<char>>, Seq<char>)| exists|i: int|
        0 <= i < rows.len() && row_key(#[trigger] rows[i]) == k)
}

/// Applying a plan adds exactly its keys to the table.
pub proof fn lemma_apply_rows_union(t: Set<(Date, Seq<Seq<char>>, Seq<char>)>, rows: Seq<RowPlan>)
    ensures
        apply_rows(t, rows) =~= t.union(row_keys(rows)),
    decreases rows.len(),
{
    if rows.len() == 0 {
        assert(forall|k: (Date, Seq<Seq<char>>, Seq<char>)|
            !(#[trigger] row_keys(rows).contains(k)));
    } else {
        let k0 = row_key(rows[0]);
        let rest = rows.drop_first();
        lemma_apply_rows_union(t.insert(k0), rest);
        assert forall|k: (Date, Seq<Seq<char>>, Seq<char>)|
            #[trigger] row_keys(rows).contains(k) implies t.insert(k0).union(
            row_keys(rest),
        ).contains(k) by {
            let i = choose|i: int| 0 <= i < rows.len() && row_key(#[trigger] rows[i]) == k;
            if i == 0 {
            } else {
                assert(rest[i - 1] == rows[i]);
                assert(row_keys(rest).contains(k));
            }
        }
        assert forall|k: (Date, Seq<Seq<char>>, Seq<char>)|
            t.insert(k0).union(row_keys(rest)).contains(k) implies t.union(
            row_keys(rows),
        ).contains(k) by {
            if k == k0 {
                assert(row_key(rows[0]) == k);
                assert(row_keys(rows).contains(k));
            } else if t.contains(k) {
            } else {
                let i = choose|i: int| 0 <= i < rest.len() && row_key(#[trigger] rest[i]) == k;
                assert(rows[i + 1] == rest[i]);
                assert(row_keys(rows).contains(k));
            }
        }
    }
}

/// Persisting the same plan twice leaves the table exactly as persisting it
/// once: conflict-ignore writes against the composite key make repeated or
/// overlapping runs row-level idempotent, so the row count cannot change on
/// the second pass.
pub proof fn lemma_upsert_idempotent(t: Set<(Date, Seq<Seq<char>>, Seq<char>)>, rows: Seq<RowPlan>)
    ensures
        apply_rows(apply_rows(t, rows), rows) =~= apply_rows(t, rows),
{
    lemma_apply_rows_union(t, rows);
    lemma_apply_rows_union(t.union(row_keys(rows)), rows);
    assert(apply_rows(apply_rows(t, rows), rows) =~= t.union(row_keys(rows)).union(
        row_keys(rows),
    ));
}

/// The upsert DML of one weather-element table.
pub open spec fn spec_noaa_insert_sql(element: Seq<char>) -> Seq<char> {
    "INSERT INTO noaa_"@ + element
        + " (report_date, station_id, variable_name, value, value_text) VALUES($1, $2, $3, $4, $5) ON CONFLICT ON CONSTRAINT noaa_"@
        + element + "_pkeys DO NOTHING"@
}

pub fn noaa_insert_sql(element: &str) -> (s: String)
    ensures
        s@ == spec_noaa_insert_sql(element@),
{
    let mut s = String::new();
    s.append("INSERT INTO noaa_");
    s.append(element);
    s.append(
        " (report_date, station_id, variable_name, value, value_text) VALUES($1, $2, $3, $4, $5) ON CONFLICT ON CONSTRAINT noaa_",
    );
    s.append(element);
    s.append("_pkeys DO NOTHING");
    proof {
        assert(s@ =~= spec_noaa_insert_sql(element@));
    }
    s
}

/// One planned weather upsert row; the numeric value accompanies only the
/// "value" variable.
pub struct NoaaRow {
    pub report_date: Date,
    pub station_id: String,
    pub variable_name: String,
    pub value_numeric: Option<i32>,
    pub value_text: String,
}

/// The days (among the 31 slots) that contribute records, in order.
pub open spec fn kept_days_from(obs: Observation, day: int) -> Seq<int>
    decreases obs.observations@.len() - day,
{
    if day < 0 || day >= obs.observations@.len() {
        Seq::empty()
    } else if crate::noaa::slot_kept(obs, day) {
        seq![day] + kept_days_from(obs, day + 1)
    } else {
        kept_days_from(obs, day + 1)
    }
}

/// The four variable rows planned from one kept day slot: quality, source
/// and measurement flags as text, then the value as number and text, all
/// stamped with that day's date and the observation's station.
pub open spec fn noaa_group_from_slot(
    obs: Observation,
    day: int,
    r0: NoaaRow,
    r1: NoaaRow,
    r2: NoaaRow,
    r3: NoaaRow,
) -> bool {
    &&& crate::noaa::slot_kept(obs, day)
    &&& match obs.observations@[day] {
        DaySlot::Decoded(d) => {
            let date = Date {
                year: obs.year as u32,
                month: obs.month as u32,
                day: (day + 1) as u32,
            };
            &&& r0.report_date == date && r1.report_date == date && r2.report_date == date
                && r3.report_date == date
            &&& r0.station_id@ == obs.station_id@ && r1.station_id@ == obs.station_id@
                && r2.station_id@ == obs.station_id@ && r3.station_id@ == obs.station_id@
            &&& r0.variable_name@ == "quality_flag"@ && r0.value_numeric is None
                && r0.value_text@ == (match d.quality_flag {
                Some(f) => f.spec_name(),
                None => Seq::empty(),
            })
            &&& r1.variable_name@ == "source_flag"@ && r1.value_numeric is None && r1.value_text@
                == seq![d.source_flag]
            &&& r2.variable_name@ == "measure_flag"@ && r2.value_numeric is None
                && r2.value_text@ == (match d.measure_flag {
                Some(f) => f.spec_name(),
                None => Seq::empty(),
            })
            &&& r3.variable_name@ == "value"@ && r3.value_numeric == d.value && r3.value_text@
                == (match d.value {
                Some(v) => spec_int_seq(v as int),
                None => Seq::empty(),
            })
        },
        DaySlot::Undecodable => false,
    }
}

/// Plan the upsert rows of one decoded observation: for each day slot that
/// decoded with a present value on a real calendar day, in day order, the
/// four variable rows of that slot. Sentinel-absent and undecodable slots,
/// and day numbers outside the month, contribute nothing; a year or month
/// out of range yields no rows at all.
pub fn noaa_observation_rows(obs: &Observation) -> (r: Vec<NoaaRow>)
    ensures
        obs.year <= 9999 && obs.month <= 12 ==> {
            let days = kept_days_from(*obs, 0);
            &&& r@.len() == 4 * days.len()
            &&& forall|k: int|
                0 <= k < days.len() ==> noaa_group_from_slot(
                    *obs,
                    #[trigger] days[k],
                    r@[4 * k],
                    r@[4 * k + 1],
                    r@[4 * k + 2],
                    r@[4 * k + 3],
                )
        },
        obs.year > 9999 || obs.month > 12 ==> r@.len() == 0,
{
    let mut rows: Vec<NoaaRow> = Vec::new();
    if obs.year > 9999 || obs.month > 12 {
        return rows;
    }
    let year32: u32 = obs.year as u32;
    let month32: u32 = obs.month as u32;
    let ghost done: Seq<int> = Seq::empty();
    proof {
        assert(done + kept_days_from(*obs, 0) =~= kept_days_from(*obs, 0));
    }
    let mut day: usize = 0;
    while day < obs.observations.len()
        invariant
            day <= obs.observations@.len(),
            year32 == obs.year as u32,
            month32 == obs.month as u32,
            year32 <= 9999,
            month32 <= 12,
            rows@.len() == 4 * done.len(),
            done + kept_days_from(*obs, day as int) == kept_days_from(*obs, 0),
            forall|k: int|
                0 <= k < done.len() ==> noaa_group_from_slot(
                    *obs,
                    #[trigger] done[k],
                    rows@[4 * k],
                    rows@[4 * k + 1],
                    rows@[4 * k + 2],
                    rows@[4 * k + 3],
                ),
        decreases obs.observations@.len() - day,
    {
        let ghost old_done = done;
        let ghost old_rows = rows@;
        let mut kept = false;
        if day < 31 {
            if let DaySlot::Decoded(d) = obs.observations[day] {
                if let Some(v) = d.value {
                    if let Some(date) = Date::new(year32, month32, (day as u32) + 1) {
                        kept = true;
                        let quality_string = match d.quality_flag {
                            Some(f) => f.name(),
                            None => String::new(),
                        };
                        rows.push(
                            NoaaRow {
                                report_date: date,
                                station_id: obs.station_id.clone(),
                                variable_name: "quality_flag".to_owned(),
                                value_numeric: None,
                                value_text: quality_string,
                            },
                        );
                        let mut source_string = String::new();
                        source_string.push(d.source_flag);
                        rows.push(
                            NoaaRow {
                                report_date: date,
                                station_id: obs.station_id.clone(),
                                variable_name: "source_flag".to_owned(),
                                value_numeric: None,
                                value_text: source_string,
                            },
                        );
                        let measure_string = match d.measure_flag {
                            Some(f) => f.name(),
                            None => String::new(),
                        };
                        rows.push(
                            NoaaRow {
                                report_date: date,
                                station_id: obs.station_id.clone(),
                                variable_name: "measure_flag".to_owned(),
                                value_numeric: None,
                                value_text: measure_string,
                            },
                        );
                        rows.push(
                            NoaaRow {
                                report_date: date,
                                station_id: obs.station_id.clone(),
                                variable_name: "value".to_owned(),
                                value_numeric: Some(v),
                                value_text: format_i32(v),
                            },
                        );
                        proof {
                            done = done.push(day as int);
                            assert(crate::noaa::slot_kept(*obs, day as int));
                            assert(rows@[4 * (old_done.len() as int) + 1].value_text@ =~= seq![
                                d.source_flag,
                            ]);
                            assert(noaa_group_from_slot(
                                *obs,
                                day as int,
                                rows@[4 * (old_done.len() as int)],
                                rows@[4 * (old_done.len() as int) + 1],
                                rows@[4 * (old_done.len() as int) + 2],
                                rows@[4 * (old_done.len() as int) + 3],
                            ));
                            assert forall|k: int|
                                0 <= k < done.len() implies noaa_group_from_slot(
                                *obs,
                                #[trigger] done[k],
                                rows@[4 * k],
                                rows@[4 * k + 1],
                                rows@[4 * k + 2],
                                rows@[4 * k + 3],
                            ) by {
                                if k < old_done.len() {
                                    assert(done[k] == old_done[k]);
                                    assert(rows@[4 * k] == old_rows[4 * k]);
                                    assert(rows@[4 * k + 1] == old_rows[4 * k + 1]);
                                    assert(rows@[4 * k + 2] == old_rows[4 * k + 2]);
                                    assert(rows@[4 * k + 3] == old_rows[4 * k + 3]);
                                }
                            }
                        }
                    }
                }
            }
        }
        proof {
            assert(kept == crate::noaa::slot_kept(*obs, day as int));
            if kept {
                assert((old_done + (seq![day as int] + kept_days_from(*obs, day + 1))) =~= (done
                    + kept_days_from(*obs, day + 1)));
            }
        }
        day += 1;
    }
    proof {
        assert(kept_days_from(*obs, obs.observations@.len() as int) =~= Seq::<int>::empty());
        assert(done + Seq::<int>::empty() =~= done);
    }
    rows
}

/// A storage identifier safe to interpolate into DDL and DML: letters,
/// digits and underscores only, not starting with a digit.
pub open spec fn spec_valid_identifier(s: Seq<char>) -> bool {
    &&& s.len() >= 1
    &&& !is_digit(s[0])
    &&& forall|i: int|
        0 <= i < s.len() ==> (is_ascii_letter(#[trigger] s[i]) || is_digit(s[i]) || s[i] == '_')
}

/// Check one configured identifier against the fixed charset, before it is
/// ever interpolated into a statement.
pub fn valid_sql_identifier(name: &str) -> (r: bool)
    ensures
        r == spec_valid_identifier(name@),
{
    let chars = crate::text::chars_of_str(name);
    let n = chars.len();
    if n == 0 {
        return false;
    }
    if '0' <= chars[0] && chars[0] <= '9' {
        return false;
    }
    let mut i: usize = 0;
    while i < n
        invariant
            i <= n == chars@.len(),
            chars@ == name@,
            forall|j: int|
                0 <= j < i ==> (is_ascii_letter(#[trigger] name@[j]) || is_digit(name@[j])
                    || name@[j] == '_'),
        decreases n - i,
    {
        let c = chars[i];
        let ok = ('A' <= c && c <= 'Z') || ('a' <= c && c <= 'z') || ('0' <= c && c <= '9') || c
            == '_';
        if !ok {
            return false;
        }
        i += 1;
    }
    true
}

/// The storage table of every section of a report's configuration, in
/// section order.
pub fn section_table_names(config: &DatamartConfig) -> (r: Vec<String>)
    ensures
        r@.len() == config.sections@.len(),
        forall|i: int|
            0 <= i < r@.len() ==> (#[trigger] r@[i])@ == spec_table_name(
                config.name@,
                config.sections@[i].0@,
                match config.sections@[i].1.alias {
                    Some(a) => Some(a@),
                    None => None,
                },
            ),
{
    let mut r: Vec<String> = Vec::new();
    let mut i: usize = 0;
    while i < config.sections.len()
        invariant
            i <= config.sections@.len(),
            r@.len() == i,
            forall|j: int|
                0 <= j < i ==> (#[trigger] r@[j])@ == spec_table_name(
                    config.name@,
                    config.sections@[j].0@,
                    match config.sections@[j].1.alias {
                        Some(a) => Some(a@),
                        None => None,
                    },
                ),
        decreases config.sections@.len() - i,
    {
        let t = table_name(
            config.name.as_str(),
            config.sections[i].0.as_str(),
            &config.sections[i].1.alias,
        );
        r.push(t);
        i += 1;
    }
    r
}

} // verus!
