//! The fixed-width positional weather-record adapter: one 269-character line
//! per record — station, year, month, element, then 31 eight-character day
//! groups of value, measurement flag, quality flag and source flag. The
//! sentinel value -9999 decodes to "absent", never to a number.

use vstd::prelude::*;

use crate::dates::Date;
use crate::flags::{MeasurementFlag, QualityFlag};
use crate::package::{USDADataPackage, USDADataPackageSection};
use crate::schema::{DatamartConfig, DatamartSection};
use crate::text::{
    all_digits, dec_digits, dec_value, digit_val, format_i32, is_digit, lemma_dec_digits_len,
    lower_char, lower_char_exec, spec_int_seq, str_eq, lemma_dec_digits_shape,
    lemma_dec_digits_value, lemma_dec_value_bound, lemma_pow10_mono, lemma_trim_front_spaces,
    parse_u32_range, pow10, spaces, spec_parse_u32, spec_trim, string_from_range, trim_back,
    trim_front, trim_range,
};

verus! {

/// The characters of a byte run, one character per byte.
pub open spec fn bytes_chars(s: Seq<u8>) -> Seq<char> {
    Seq::new(s.len(), |i: int| s[i] as char)
}

/// One day's observation: the decoded value (`None` for the absence
/// sentinel), the optional flags, and the verbatim source flag.
#[derive(Clone, Copy, PartialEq, Eq, Structural, Debug)]
pub struct DailyObservation {
    pub value: Option<i32>,
    pub measure_flag: Option<MeasurementFlag>,
    pub quality_flag: Option<QualityFlag>,
    pub source_flag: char,
}

/// One of the 31 slots of a record: decoded, or a per-group decode failure
/// that downstream consumption must exclude.
#[derive(Clone, Copy, PartialEq, Eq, Structural, Debug)]
pub enum DaySlot {
    Decoded(DailyObservation),
    Undecodable,
}

/// One positional record: always exactly 31 day slots.
#[derive(Debug)]
pub struct Observation {
    pub station_id: String,
    pub year: usize,
    pub month: usize,
    pub element: String,
    pub observations: Vec<DaySlot>,
}

/// A signed decimal field: an optional minus sign, then 1 to 9 digits.
pub open spec fn spec_parse_int(s: Seq<char>) -> Option<i32> {
    if s.len() > 0 && s[0] == '-' {
        match spec_parse_u32(s.drop_first()) {
            Some(v) => Some((-(v as int)) as i32),
            None => None,
        }
    } else {
        match spec_parse_u32(s) {
            Some(v) => Some(v as i32),
            None => None,
        }
    }
}

/// The 5-character value field: trimmed, read as a signed integer; the
/// sentinel -9999 means "absent". The outer `None` is a decode failure.
pub open spec fn spec_parse_value(f: Seq<char>) -> Option<Option<i32>> {
    match spec_parse_int(spec_trim(f)) {
        None => None,
        Some(v) => if v == -9999 {
            Some(None)
        } else {
            Some(Some(v))
        },
    }
}

/// A measurement-flag character: blank is absent, a table code is that
/// variant, anything else is a decode failure.
pub open spec fn spec_flag_m(c: char) -> Option<Option<MeasurementFlag>> {
    if c == ' ' {
        Some(None)
    } else {
        match MeasurementFlag::spec_from_code(c) {
            Some(f) => Some(Some(f)),
            None => None,
        }
    }
}

/// A quality-flag character, same convention.
pub open spec fn spec_flag_q(c: char) -> Option<Option<QualityFlag>> {
    if c == ' ' {
        Some(None)
    } else {
        match QualityFlag::spec_from_code(c) {
            Some(f) => Some(Some(f)),
            None => None,
        }
    }
}

/// One 8-character day group; `None` is a decode failure of that group
/// alone.
pub open spec fn spec_parse_group(g: Seq<char>) -> Option<DailyObservation> {
    match (spec_parse_value(g.subrange(0, 5)), spec_flag_m(g[5]), spec_flag_q(g[6])) {
        (Some(v), Some(m), Some(q)) => Some(
            DailyObservation { value: v, measure_flag: m, quality_flag: q, source_flag: g[7] },
        ),
        _ => None,
    }
}

pub open spec fn spec_slot(g: Seq<char>) -> DaySlot {
    match spec_parse_group(g) {
        Some(d) => DaySlot::Decoded(d),
        None => DaySlot::Undecodable,
    }
}

/// Parse `chars[from..to]` as a signed decimal field.
pub fn parse_int_range(chars: &[char], from: usize, to: usize) -> (r: Option<i32>)
    requires
        from <= to <= chars@.len(),
    ensures
        r == spec_parse_int(chars@.subrange(from as int, to as int)),
{
    let ghost field = chars@.subrange(from as int, to as int);
    if to > from && chars[from] == '-' {
        proof {
            assert(field[0] == chars@[from as int]);
            assert(field.drop_first() =~= chars@.subrange(from + 1, to as int));
        }
        match parse_u32_range(chars, from + 1, to) {
            Some(v) => {
                proof {
                    let ds = field.drop_first();
                    assert(spec_parse_u32(ds) == Some(v));
                    lemma_dec_value_bound(ds);
                    lemma_pow10_mono(ds.len() as nat, 9);
                    assert(pow10(9) == 1000000000) by {
                        reveal_with_fuel(pow10, 11);
                    }
                    assert(dec_value(ds) < 1000000000);
                    assert(v == dec_value(ds));
                }
                Some(0i32 - (v as i32))
            },
            None => None,
        }
    } else {
        proof {
            if to > from {
                assert(field[0] == chars@[from as int]);
            }
        }
        match parse_u32_range(chars, from, to) {
            Some(v) => {
                proof {
                    assert(spec_parse_u32(field) == Some(v));
                    lemma_dec_value_bound(field);
                    lemma_pow10_mono(field.len() as nat, 9);
                    assert(pow10(9) == 1000000000) by {
                        reveal_with_fuel(pow10, 11);
                    }
                    assert(dec_value(field) < 1000000000);
                    assert(v == dec_value(field));
                }
                Some(v as i32)
            },
            None => None,
        }
    }
}

/// Parse one 8-character day group starting at `off`.
pub fn parse_group(chars: &[char], off: usize) -> (r: DaySlot)
    requires
        off + 8 <= chars@.len(),
    ensures
        r == spec_slot(chars@.subrange(off as int, off + 8)),
{
    let n = chars.len();
    proof {
        assert(off + 8 <= n);
    }
    let ghost g = chars@.subrange(off as int, off + 8);
    proof {
        assert(g.subrange(0, 5) =~= chars@.subrange(off as int, off + 5));
        assert(g[5] == chars@[off + 5]);
        assert(g[6] == chars@[off + 6]);
        assert(g[7] == chars@[off + 7]);
    }
    let (a, b) = trim_range(chars, off, off + 5);
    let value: Option<i32> = match parse_int_range(chars, a, b) {
        None => {
            return DaySlot::Undecodable;
        },
        Some(v) => if v == -9999 {
            None
        } else {
            Some(v)
        },
    };
    let mc = chars[off + 5];
    let measure_flag: Option<MeasurementFlag> = if mc == ' ' {
        None
    } else {
        match MeasurementFlag::from_code(mc) {
            Some(f) => Some(f),
            None => {
                return DaySlot::Undecodable;
            },
        }
    };
    let qc = chars[off + 6];
    let quality_flag: Option<QualityFlag> = if qc == ' ' {
        None
    } else {
        match QualityFlag::from_code(qc) {
            Some(f) => Some(f),
            None => {
                return DaySlot::Undecodable;
            },
        }
    };
    DaySlot::Decoded(
        DailyObservation { value, measure_flag, quality_flag, source_flag: chars[off + 7] },
    )
}

/// Structural validity of one positional line: exactly 269 characters, with
/// numeric year and month fields.
pub open spec fn line_structurally_valid(line: Seq<char>) -> bool {
    line.len() == 269 && spec_parse_u32(line.subrange(11, 15)) is Some && spec_parse_u32(
        line.subrange(15, 17),
    ) is Some
}

/// `o` is exactly the decode of the positional line: the verbatim station
/// and element fields, the numeric year and month, and all 31 day slots.
pub open spec fn obs_decodes_line(o: Observation, line: Seq<char>) -> bool {
    &&& line_structurally_valid(line)
    &&& o.station_id@ == line.subrange(0, 11)
    &&& Some(o.year as u32) == spec_parse_u32(line.subrange(11, 15))
    &&& Some(o.month as u32) == spec_parse_u32(line.subrange(15, 17))
    &&& o.element@ == line.subrange(17, 21)
    &&& o.observations@.len() == 31
    &&& forall|k: int|
        0 <= k < 31 ==> o.observations@[k] == spec_slot(line.subrange(21 + 8 * k, 29 + 8 * k))
}

/// Decode one positional line. `None` is a structural failure (the line is
/// skipped); a decoded record always carries exactly 31 day slots, each
/// decoded independently.
pub fn parse_observation_line(chars: &[char]) -> (r: Option<Observation>)
    ensures
        match r {
            Some(o) => obs_decodes_line(o, chars@),
            None => !line_structurally_valid(chars@),
        },
{
    if chars.len() != 269 {
        return None;
    }
    let year: u32 = match parse_u32_range(chars, 11, 15) {
        Some(y) => y,
        None => {
            return None;
        },
    };
    let month: u32 = match parse_u32_range(chars, 15, 17) {
        Some(m) => m,
        None => {
            return None;
        },
    };
    let station_id = string_from_range(chars, 0, 11);
    let element = string_from_range(chars, 17, 21);
    let mut observations: Vec<DaySlot> = Vec::new();
    let mut k: usize = 0;
    while k < 31
        invariant
            chars@.len() == 269,
            k <= 31,
            observations@.len() == k,
            forall|j: int|
                0 <= j < k ==> observations@[j] == spec_slot(chars@.subrange(21 + 8 * j, 29 + 8 * j)),
        decreases 31 - k,
    {
        let slot = parse_group(chars, 21 + 8 * k);
        observations.push(slot);
        k += 1;
    }
    proof {
        lemma_dec_value_bound(chars@.subrange(11, 15));
        lemma_dec_value_bound(chars@.subrange(15, 17));
        lemma_pow10_mono(chars@.subrange(11, 15).len() as nat, 9);
        lemma_pow10_mono(chars@.subrange(15, 17).len() as nat, 9);
    }
    Some(
        Observation {
            station_id,
            year: year as usize,
            month: month as usize,
            element,
            observations,
        },
    )
}

/// Canonical encoding of a value field: the sentinel for "absent", otherwise
/// the decimal rendering right-aligned in five characters.
pub open spec fn spec_encode_value(v: Option<i32>) -> Seq<char> {
    match v {
        None => seq!['-', '9', '9', '9', '9'],
        Some(x) => {
            let ds = if x < 0 {
                seq!['-'] + dec_digits((-x) as nat)
            } else {
                dec_digits(x as nat)
            };
            spaces((5 - ds.len()) as nat) + ds
        },
    }
}

/// Canonical encoding of a whole day group.
pub open spec fn spec_encode_group(d: DailyObservation) -> Seq<char> {
    spec_encode_value(d.value) + seq![
        match d.measure_flag {
            None => ' ',
            Some(f) => f.spec_code(),
        },
        match d.quality_flag {
            None => ' ',
            Some(f) => f.spec_code(),
        },
        d.source_flag,
    ]
}

/// A day observation the positional format can carry: the value fits the
/// five-character field and is not the reserved sentinel.
pub open spec fn valid_day_obs(d: DailyObservation) -> bool {
    match d.value {
        None => true,
        Some(x) => -9998 <= x <= 99999,
    }
}

/// The sentinel always decodes to "absent": no value field ever decodes to
/// the number -9999.
pub proof fn lemma_sentinel_never_numeric(f: Seq<char>)
    ensures
        spec_parse_value(f) != Some(Some(-9999i32)),
{
}

/// Decoding the canonical encoding of any valid day observation gives back
/// exactly that observation: the numeric content survives the round trip,
/// with the sentinel convention intact.
pub proof fn lemma_group_round_trip(d: DailyObservation)
    requires
        valid_day_obs(d),
    ensures
        spec_slot(spec_encode_group(d)) == DaySlot::Decoded(d),
{
    let ev = spec_encode_value(d.value);
    let g = spec_encode_group(d);
    lemma_encode_value_parses(d.value);
    assert(ev.len() == 5);
    assert(g.subrange(0, 5) =~= ev);
    assert(g[5] == match d.measure_flag {
        None => ' ',
        Some(f) => f.spec_code(),
    });
    assert(g[6] == match d.quality_flag {
        None => ' ',
        Some(f) => f.spec_code(),
    });
    assert(g[7] == d.source_flag);
    match d.measure_flag {
        None => {
            assert(spec_flag_m(g[5]) == Some(Option::<MeasurementFlag>::None));
        },
        Some(f) => {
            assert(f.spec_code() != ' ');
            crate::flags::lemma_measurement_flag_round_trip(f);
        },
    }
    match d.quality_flag {
        None => {
            assert(spec_flag_q(g[6]) == Some(Option::<QualityFlag>::None));
        },
        Some(f) => {
            assert(f.spec_code() != ' ');
            crate::flags::lemma_quality_flag_round_trip(f);
        },
    }
}

/// The canonical value encoding is five characters and parses back to the
/// same value.
pub proof fn lemma_encode_value_parses(v: Option<i32>)
    requires
        match v {
            None => true,
            Some(x) => -9998 <= x <= 99999,
        },
    ensures
        spec_encode_value(v).len() == 5,
        spec_parse_value(spec_encode_value(v)) == Some(v),
{
    let ev = spec_encode_value(v);
    match v {
        None => {
            assert(ev =~= seq!['-', '9', '9', '9', '9']);
            assert(trim_front(ev) == ev);
            assert(trim_back(ev) == ev);
            assert(spec_trim(ev) == ev);
            let ds = ev.drop_first();
            assert(ds =~= seq!['9', '9', '9', '9']);
            assert(all_digits(ds));
            assert(digit_val('9') == 9);
            assert(dec_value(Seq::<char>::empty()) == 0);
            let s1 = seq!['9'];
            let s2 = seq!['9', '9'];
            let s3 = seq!['9', '9', '9'];
            assert(s1.drop_last() =~= Seq::<char>::empty());
            assert(dec_value(s1) == 9);
            assert(s2.drop_last() =~= s1);
            assert(dec_value(s2) == 99);
            assert(s3.drop_last() =~= s2);
            assert(dec_value(s3) == 999);
            assert(ds.drop_last() =~= s3);
            assert(dec_value(ds) == 9999);
            assert(spec_parse_u32(ds) == Some(9999u32));
            assert(spec_parse_int(ev) == Some(-9999i32));
        },
        Some(x) => {
            let ds = if x < 0 {
                seq!['-'] + dec_digits((-x) as nat)
            } else {
                dec_digits(x as nat)
            };
            if x < 0 {
                lemma_dec_digits_shape((-x) as nat);
                lemma_dec_digits_value((-x) as nat);
                assert(pow10(4) == 10000) by {
                    reveal_with_fuel(pow10, 6);
                }
                lemma_dec_digits_len((-x) as nat, 4);
                assert(ds.len() <= 5);
            } else {
                lemma_dec_digits_shape(x as nat);
                lemma_dec_digits_value(x as nat);
                assert(pow10(5) == 100000) by {
                    reveal_with_fuel(pow10, 7);
                }
                lemma_dec_digits_len(x as nat, 5);
                assert(ds.len() <= 5);
            }
            assert(ds.len() >= 1);
            assert(ds[0] != ' ') by {
                if x < 0 {
                } else {
                    assert(is_digit(ds[0]));
                }
            }
            lemma_trim_front_spaces((5 - ds.len()) as nat, ds);
            assert(trim_front(ev) == ds);
            assert(ds.last() != ' ') by {
                if x < 0 {
                    if ds.len() > 1 {
                        assert(ds.last() == dec_digits((-x) as nat).last());
                        assert(is_digit(dec_digits((-x) as nat).last()));
                    }
                } else {
                    assert(is_digit(ds.last()));
                }
            }
            assert(trim_back(ds) == ds);
            assert(spec_trim(ev) == ds);
            if x < 0 {
                assert(ds[0] == '-');
                assert(ds.drop_first() =~= dec_digits((-x) as nat));
                assert(all_digits(ds.drop_first()));
                assert(1 <= ds.drop_first().len() <= 4);
                assert(dec_value(ds.drop_first()) == -x);
                assert(spec_parse_u32(ds.drop_first()) == Some(((-x) as nat) as u32));
                assert(spec_parse_int(ds) == Some(x));
            } else {
                assert(ds[0] != '-') by {
                    assert(is_digit(ds[0]));
                }
                assert(all_digits(ds));
                assert(1 <= ds.len() <= 5);
                assert(dec_value(ds) == x);
                assert(spec_parse_u32(ds) == Some((x as nat) as u32));
                assert(spec_parse_int(ds) == Some(x));
            }
            assert(x != -9999);
        },
    }
}

/// One member of the fetched archive: its path and raw bytes.
pub struct ArchiveMember {
    pub name: String,
    pub data: Vec<u8>,
}

/// The member list (path and contents, in order) of a gzip-compressed tar
/// archive, where the bytes form one; decompression is a function of the
/// bytes alone.
pub uninterp spec fn archive_members(bytes: Seq<u8>) -> Option<Seq<(Seq<char>, Seq<u8>)>>;

/// Relies on flate2's `GzDecoder` (gzip decompression) and tar's `Archive`
/// (member enumeration) over an in-memory buffer, both deterministic in the
/// bytes (member names are read from the raw path bytes, so on every
/// platform alike): on success the members returned are exactly
/// `archive_members` of the input bytes; failure means the bytes form no
/// such archive.
#[verifier::external_body]
fn unpack_archive(bytes: &[u8]) -> (r: Result<Vec<ArchiveMember>, String>)
    ensures
        match r {
            Ok(ms) => archive_members(bytes@) == Some(
                Seq::new(ms@.len(), |i: int| (ms@[i].name@, ms@[i].data@)),
            ),
            Err(_) => archive_members(bytes@) is None,
        },
{
    let mut archive = tar::Archive::new(flate2::read::GzDecoder::new(bytes));
    let mut members = Vec::new();
    let entries = archive.entries().map_err(|_| String::from("Failed to read archive from NOAA"))?;
    for entry in entries {
        let mut file = entry.map_err(|_| String::from("Failed to read file in archive from NOAA"))?;
        let name = String::from_utf8_lossy(&file.path_bytes()).into_owned();
        let mut data = Vec::new();
        std::io::Read::read_to_end(&mut file, &mut data).map_err(|e| format!("Failed to read file in archive into memory: {}, {}", name, e))?;
        members.push(ArchiveMember { name, data });
    }
    Ok(members)
}

/// The characters of `data[from..to]`, one per byte.
pub fn bytes_to_chars(data: &[u8], from: usize, to: usize) -> (v: Vec<char>)
    requires
        from <= to <= data@.len(),
    ensures
        v@ == bytes_chars(data@).subrange(from as int, to as int),
{
    let mut v: Vec<char> = Vec::new();
    let mut i = from;
    while i < to
        invariant
            from <= i <= to <= data@.len(),
            v@ == bytes_chars(data@).subrange(from as int, i as int),
        decreases to - i,
    {
        let b = data[i];
        v.push(b as char);
        proof {
            assert(bytes_chars(data@)[i as int] == data@[i as int] as char);
            assert(v@ =~= bytes_chars(data@).subrange(from as int, i + 1));
        }
        i += 1;
    }
    v
}

/// Case-insensitive (ASCII) prefix test.
pub open spec fn spec_prefix_ci(s: Seq<char>, p: Seq<char>) -> bool {
    p.len() <= s.len() && forall|i: int|
        0 <= i < p.len() ==> lower_char(#[trigger] s[i]) == lower_char(p[i])
}

pub fn starts_with_ci(s: &str, p: &str) -> (r: bool)
    ensures
        r == spec_prefix_ci(s@, p@),
{
    let n = p.unicode_len();
    if n > s.unicode_len() {
        return false;
    }
    let mut i: usize = 0;
    while i < n
        invariant
            n == p@.len(),
            n <= s@.len(),
            i <= n,
            forall|j: int| 0 <= j < i ==> lower_char(#[trigger] s@[j]) == lower_char(p@[j]),
        decreases n - i,
    {
        if lower_char_exec(s.get_char(i)) != lower_char_exec(p.get_char(i)) {
            return false;
        }
        i += 1;
    }
    true
}

/// The record-keeping filter of the archive scan: the element allow-match
/// and the case-insensitive station-prefix match, each only when supplied.
pub open spec fn spec_passes_filters(
    element: Seq<char>,
    station: Seq<char>,
    ef: Option<Seq<char>>,
    sf: Option<Seq<char>>,
) -> bool {
    (match ef {
        Some(e) => element == e,
        None => true,
    }) && (match sf {
        Some(c) => spec_prefix_ci(station, c),
        None => true,
    })
}

pub open spec fn spec_filter_view(f: Option<String>) -> Option<Seq<char>> {
    match f {
        Some(s) => Some(s@),
        None => None,
    }
}


/// A line of a member is kept when it decodes structurally and passes both
/// supplied filters.
pub open spec fn spec_line_kept(
    line: Seq<char>,
    ef: Option<Seq<char>>,
    sf: Option<Seq<char>>,
) -> bool {
    line_structurally_valid(line) && spec_passes_filters(
        line.subrange(17, 21),
        line.subrange(0, 11),
        ef,
        sf,
    )
}

/// The kept lines, from index `i` on, in order.
pub open spec fn kept_lines_from(
    lines: Seq<Seq<char>>,
    ef: Option<Seq<char>>,
    sf: Option<Seq<char>>,
    i: int,
) -> Seq<Seq<char>>
    decreases lines.len() - i,
{
    if i < 0 || i >= lines.len() {
        Seq::empty()
    } else if spec_line_kept(lines[i], ef, sf) {
        seq![lines[i]] + kept_lines_from(lines, ef, sf, i + 1)
    } else {
        kept_lines_from(lines, ef, sf, i + 1)
    }
}

/// The kept lines of the whole archive, member order then line order.
pub open spec fn archive_kept_lines_from(
    members: Seq<(Seq<char>, Seq<u8>)>,
    ef: Option<Seq<char>>,
    sf: Option<Seq<char>>,
    i: int,
) -> Seq<Seq<char>>
    decreases members.len() - i,
{
    if i < 0 || i >= members.len() {
        Seq::empty()
    } else {
        kept_lines_from(
            crate::legacy::spec_split_lines(bytes_chars(members[i].1)),
            ef,
            sf,
            0,
        ) + archive_kept_lines_from(members, ef, sf, i + 1)
    }
}

/// How many non-empty lines, from index `i` on, fail structural decoding.
pub open spec fn bad_count_from(lines: Seq<Seq<char>>, i: int) -> int
    decreases lines.len() - i,
{
    if i < 0 || i >= lines.len() {
        0
    } else {
        (if lines[i].len() > 0 && !line_structurally_valid(lines[i]) {
            1int
        } else {
            0int
        }) + bad_count_from(lines, i + 1)
    }
}

/// How many non-empty lines of the whole archive fail structural decoding.
pub open spec fn archive_bad_count_from(members: Seq<(Seq<char>, Seq<u8>)>, i: int) -> int
    decreases members.len() - i,
{
    if i < 0 || i >= members.len() {
        0
    } else {
        bad_count_from(crate::legacy::spec_split_lines(bytes_chars(members[i].1)), 0)
            + archive_bad_count_from(members, i + 1)
    }
}

/// A count held to the machine's word, saturating at its top.
pub open spec fn clamp_usize(n: int) -> int {
    if n < usize::MAX as int {
        n
    } else {
        usize::MAX as int
    }
}

/// Peeling one line off the front of a split: where `s[pos..end]` holds no
/// newline and `end` is the end of text or a newline, the split of the text
/// from `pos` starts with exactly that line.
proof fn lemma_split_peel(s: Seq<char>, pos: int, end: int)
    requires
        0 <= pos <= end <= s.len(),
        pos < s.len(),
        forall|j: int| pos <= j < end ==> s[j] != '\n',
        end < s.len() ==> s[end] == '\n',
    ensures
        crate::legacy::spec_split_lines(s.subrange(pos, s.len() as int)) == seq![
            s.subrange(pos, end),
        ] + crate::legacy::spec_split_lines(
            s.subrange(if end < s.len() { end + 1 } else { s.len() as int }, s.len() as int),
        ),
{
    let rest = s.subrange(pos, s.len() as int);
    let k = crate::legacy::first_newline(rest, 0);
    crate::legacy::lemma_first_newline_bounds(rest, 0);
    assert forall|j: int| 0 <= j < end - pos implies rest[j] != '\n' by {
        assert(rest[j] == s[pos + j]);
    }
    if end < s.len() {
        assert(rest[end - pos] == s[end as int]);
        assert(k == end - pos) by {
            if k < end - pos {
                assert(rest[k] != '\n');
            }
            if k > end - pos {
                assert(rest[end - pos] != '\n');
            }
        }
        assert(rest.subrange(0, k) =~= s.subrange(pos, end));
        assert(rest.subrange(k + 1, rest.len() as int) =~= s.subrange(end + 1, s.len() as int));
    } else {
        assert(k == rest.len()) by {
            if k < rest.len() {
                assert(rest[k] != '\n');
            }
        }
        assert(rest =~= s.subrange(pos, end));
        assert(s.subrange(s.len() as int, s.len() as int) =~= Seq::<char>::empty());
        assert(crate::legacy::spec_split_lines(
            s.subrange(s.len() as int, s.len() as int),
        ) =~= Seq::<Seq<char>>::empty());
        assert(seq![s.subrange(pos, end)] + crate::legacy::spec_split_lines(
            s.subrange(s.len() as int, s.len() as int),
        ) =~= seq![rest]);
    }
}

/// Scan a gzip tar archive of positional records. Each member is split
/// into newline-terminated lines; the result holds, in member order then
/// line order, exactly the decode of every structurally-valid line that
/// passes both supplied filters, together with the number of non-empty
/// lines skipped for structural decode failure (for the caller to log).
/// The scan fails exactly when the bytes form no gzip tar archive: a
/// skipped line alone never fails it.
pub fn process_noaa_with_skips(
    archive: &[u8],
    element_filter: Option<String>,
    station_country_filter: Option<String>,
) -> (r: Result<(Vec<Observation>, usize), String>)
    ensures
        r is Ok <==> archive_members(archive@) is Some,
        match r {
            Ok(out) => (match archive_members(archive@) {
                Some(ms) => {
                    let kept = archive_kept_lines_from(
                        ms,
                        spec_filter_view(element_filter),
                        spec_filter_view(station_country_filter),
                        0,
                    );
                    &&& out.0@.len() == kept.len()
                    &&& (forall|i: int|
                        0 <= i < kept.len() ==> obs_decodes_line(out.0@[i], #[trigger] kept[i]))
                    &&& out.1 as int == clamp_usize(archive_bad_count_from(ms, 0))
                },
                None => false,
            }),
            Err(_) => archive_members(archive@) is None,
        },
{
    let ghost efv = spec_filter_view(element_filter);
    let ghost sfv = spec_filter_view(station_country_filter);
    let members = match unpack_archive(archive) {
        Ok(ms) => ms,
        Err(e) => {
            return Err(e);
        },
    };
    let ghost msv = Seq::new(members@.len(), |i: int| (members@[i].name@, members@[i].data@));
    let mut results: Vec<Observation> = Vec::new();
    let mut skipped_lines: usize = 0;
    let ghost done: Seq<Seq<char>> = Seq::empty();
    let ghost bad_done: int = 0;
    proof {
        assert(done + archive_kept_lines_from(msv, efv, sfv, 0) =~= archive_kept_lines_from(
            msv,
            efv,
            sfv,
            0,
        ));
    }
    let mut m: usize = 0;
    while m < members.len()
        invariant
            msv == Seq::new(members@.len(), |i: int| (members@[i].name@, members@[i].data@)),
            efv == spec_filter_view(element_filter),
            sfv == spec_filter_view(station_country_filter),
            m <= members@.len(),
            results@.len() == done.len(),
            forall|i: int|
                0 <= i < done.len() ==> obs_decodes_line(results@[i], #[trigger] done[i]),
            done + archive_kept_lines_from(msv, efv, sfv, m as int) == archive_kept_lines_from(
                msv,
                efv,
                sfv,
                0,
            ),
            bad_done >= 0,
            skipped_lines as int == clamp_usize(bad_done),
            bad_done + archive_bad_count_from(msv, m as int) == archive_bad_count_from(msv, 0),
        decreases members@.len() - m,
    {
        let data = &members[m].data;
        let ghost lines = crate::legacy::spec_split_lines(bytes_chars(data@));
        proof {
            assert(msv[m as int].1 == data@);
            assert(done + (kept_lines_from(lines, efv, sfv, 0) + archive_kept_lines_from(
                msv,
                efv,
                sfv,
                m + 1,
            )) =~= (done + kept_lines_from(lines, efv, sfv, 0)) + archive_kept_lines_from(
                msv,
                efv,
                sfv,
                m + 1,
            ));
        }
        let n = data.len();
        let mut pos: usize = 0;
        proof {
            assert(bytes_chars(data@).subrange(0, n as int) =~= bytes_chars(data@));
        }
        while pos < n
            invariant
                n == data@.len(),
                pos <= n,
                efv == spec_filter_view(element_filter),
                sfv == spec_filter_view(station_country_filter),
                msv == Seq::new(members@.len(), |i: int| (members@[i].name@, members@[i].data@)),
                m < members@.len(),
                msv[m as int].1 == data@,
                lines == crate::legacy::spec_split_lines(bytes_chars(data@)),
                results@.len() == done.len(),
                forall|i: int|
                    0 <= i < done.len() ==> obs_decodes_line(results@[i], #[trigger] done[i]),
                (done + kept_lines_from(
                    crate::legacy::spec_split_lines(
                        bytes_chars(data@).subrange(pos as int, n as int),
                    ),
                    efv,
                    sfv,
                    0,
                )) + archive_kept_lines_from(msv, efv, sfv, m + 1) == archive_kept_lines_from(
                    msv,
                    efv,
                    sfv,
                    0,
                ),
                bad_done >= 0,
                skipped_lines as int == clamp_usize(bad_done),
                bad_done + bad_count_from(
                    crate::legacy::spec_split_lines(
                        bytes_chars(data@).subrange(pos as int, n as int),
                    ),
                    0,
                ) + archive_bad_count_from(msv, m + 1) == archive_bad_count_from(msv, 0),
            decreases n - pos,
        {
            let mut line_end = pos;
            while line_end < n && data[line_end] != 10u8
                invariant
                    pos <= line_end <= n == data@.len(),
                    forall|j: int| pos <= j < line_end ==> data@[j] != 10u8,
                decreases n - line_end,
            {
                line_end += 1;
            }
            let line = bytes_to_chars(data, pos, line_end);
            let ghost cs = bytes_chars(data@);
            proof {
                assert forall|j: int| pos <= j < line_end implies cs[j] != '\n' by {
                    assert(cs[j] == data@[j] as char);
                    assert(data@[j] != 10u8);
                    assert((data@[j] as char) as int == data@[j] as int);
                }
                if line_end < n {
                    assert(cs[line_end as int] == data@[line_end as int] as char);
                    assert(data@[line_end as int] == 10u8);
                    assert(cs[line_end as int] == '\n');
                }
                lemma_split_peel(cs, pos as int, line_end as int);
            }
            let mut kept = false;
            let ghost old_done = done;
            let ghost old_results = results@;
            match parse_observation_line(line.as_slice()) {
                Some(o) => {
                    let element_ok = match &element_filter {
                        Some(e) => str_eq(o.element.as_str(), e.as_str()),
                        None => true,
                    };
                    let station_ok = match &station_country_filter {
                        Some(c) => starts_with_ci(o.station_id.as_str(), c.as_str()),
                        None => true,
                    };
                    if element_ok && station_ok {
                        results.push(o);
                        kept = true;
                        proof {
                            done = done.push(cs.subrange(pos as int, line_end as int));
                        }
                    }
                },
                None => {
                    // structural decode failure: the line is skipped and
                    // counted, the scan goes on
                    if line.len() > 0 {
                        if skipped_lines < usize::MAX {
                            skipped_lines = skipped_lines + 1;
                        }
                        proof {
                            bad_done = bad_done + 1;
                        }
                    }
                },
            }
            proof {
                let lv = cs.subrange(pos as int, line_end as int);
                assert(line@ == lv);
                assert(spec_line_kept(lv, efv, sfv) == kept);
                let rest = crate::legacy::spec_split_lines(cs.subrange(pos as int, n as int));
                assert(rest[0] == lv);
                assert(rest.drop_first() =~= crate::legacy::spec_split_lines(
                    cs.subrange(
                        if line_end < n {
                            line_end + 1
                        } else {
                            n as int
                        },
                        n as int,
                    ),
                ));
                lemma_kept_shift(rest, efv, sfv);
                if kept {
                    assert(obs_decodes_line(results@[done.len() - 1], lv));
                    assert forall|i: int|
                        0 <= i < done.len() implies obs_decodes_line(
                        results@[i],
                        #[trigger] done[i],
                    ) by {
                        if i < old_done.len() {
                            assert(done[i] == old_done[i]);
                            assert(results@[i] == old_results[i]);
                        }
                    }
                    assert((old_done + (seq![lv] + kept_lines_from(
                        rest.drop_first(),
                        efv,
                        sfv,
                        0,
                    ))) =~= (done + kept_lines_from(rest.drop_first(), efv, sfv, 0)));
                } else {
                    assert((done + (Seq::<Seq<char>>::empty() + kept_lines_from(
                        rest.drop_first(),
                        efv,
                        sfv,
                        0,
                    ))) =~= (done + kept_lines_from(rest.drop_first(), efv, sfv, 0)));
                }
            }
            if line_end < n {
                pos = line_end + 1;
            } else {
                pos = n;
            }
        }
        proof {
            assert(bytes_chars(data@).subrange(n as int, n as int) =~= Seq::<char>::empty());
            assert(crate::legacy::spec_split_lines(Seq::<char>::empty()) =~= Seq::<
                Seq<char>,
            >::empty());
            assert((done + Seq::<Seq<char>>::empty()) + archive_kept_lines_from(
                msv,
                efv,
                sfv,
                m + 1,
            ) =~= done + archive_kept_lines_from(msv, efv, sfv, m + 1));
        }
        m += 1;
    }
    proof {
        assert(archive_members(archive@) == Some(msv));
        assert(archive_kept_lines_from(msv, efv, sfv, msv.len() as int) =~= Seq::<
            Seq<char>,
        >::empty());
        assert(done + Seq::<Seq<char>>::empty() =~= done);
        assert(done == archive_kept_lines_from(msv, efv, sfv, 0));
    }
    Ok((results, skipped_lines))
}

/// Scan a gzip tar archive of positional records, without the skip count.
/// The scan fails exactly when the bytes form no gzip tar archive; the
/// result holds, in member order then line order, exactly the decode of
/// every structurally-valid line that passes both supplied filters.
pub fn process_noaa(
    archive: &[u8],
    element_filter: Option<String>,
    station_country_filter: Option<String>,
) -> (r: Result<Vec<Observation>, String>)
    ensures
        r is Ok <==> archive_members(archive@) is Some,
        match r {
            Ok(v) => (match archive_members(archive@) {
                Some(ms) => {
                    let kept = archive_kept_lines_from(
                        ms,
                        spec_filter_view(element_filter),
                        spec_filter_view(station_country_filter),
                        0,
                    );
                    &&& v@.len() == kept.len()
                    &&& (forall|i: int|
                        0 <= i < kept.len() ==> obs_decodes_line(v@[i], #[trigger] kept[i]))
                },
                None => false,
            }),
            Err(_) => archive_members(archive@) is None,
        },
{
    match process_noaa_with_skips(archive, element_filter, station_country_filter) {
        Ok((results, _)) => Ok(results),
        Err(e) => Err(e),
    }
}

/// The kept lines of a non-empty list are the head (when kept) followed by
/// the tail's kept lines, and the bad count peels the same way.
proof fn lemma_kept_shift(lines: Seq<Seq<char>>, ef: Option<Seq<char>>, sf: Option<Seq<char>>)
    requires
        lines.len() >= 1,
    ensures
        kept_lines_from(lines, ef, sf, 0) == (if spec_line_kept(lines[0], ef, sf) {
            seq![lines[0]]
        } else {
            Seq::empty()
        }) + kept_lines_from(lines.drop_first(), ef, sf, 0),
        bad_count_from(lines, 0) == (if lines[0].len() > 0 && !line_structurally_valid(
            lines[0],
        ) {
            1int
        } else {
            0int
        }) + bad_count_from(lines.drop_first(), 0),
{
    lemma_kept_tail(lines, ef, sf, 1);
    assert(lines.drop_first() =~= lines.subrange(1, lines.len() as int));
    if !spec_line_kept(lines[0], ef, sf) {
        assert(Seq::<Seq<char>>::empty() + kept_lines_from(lines.drop_first(), ef, sf, 0)
            =~= kept_lines_from(lines.drop_first(), ef, sf, 0));
    }
}

/// Counting or collecting from index `i` equals doing so from the front of
/// the list with its first `i` entries dropped.
proof fn lemma_kept_tail(
    lines: Seq<Seq<char>>,
    ef: Option<Seq<char>>,
    sf: Option<Seq<char>>,
    i: int,
)
    requires
        0 <= i <= lines.len(),
    ensures
        kept_lines_from(lines, ef, sf, i) == kept_lines_from(
            lines.subrange(i, lines.len() as int),
            ef,
            sf,
            0,
        ),
        bad_count_from(lines, i) == bad_count_from(lines.subrange(i, lines.len() as int), 0),
    decreases lines.len() - i,
{
    if i < lines.len() {
        let tail = lines.subrange(i, lines.len() as int);
        lemma_kept_tail(lines, ef, sf, i + 1);
        lemma_kept_tail(tail, ef, sf, 1);
        assert(tail[0] == lines[i]);
        assert(tail.subrange(1, tail.len() as int) =~= lines.subrange(i + 1, lines.len() as int));
    } else {
        assert(lines.subrange(i, lines.len() as int) =~= Seq::<Seq<char>>::empty());
    }
}


/// The elements kept for persistence.
pub open spec fn spec_supported_noaa_element(e: Seq<char>) -> bool {
    e == "TMAX"@ || e == "TMIN"@ || e == "TAVG"@ || e == "EVAP"@
}

pub fn supported_noaa_element(e: &str) -> (r: bool)
    ensures
        r == spec_supported_noaa_element(e@),
{
    str_eq(e, "TMAX") || str_eq(e, "TMIN") || str_eq(e, "TAVG") || str_eq(e, "EVAP")
}

/// Shape of a record built from one decoded day observation: a valid date,
/// the two independent values (ISO date text, then station id), and exactly
/// the four flag/value entries.
pub open spec fn noaa_record_shape(rec: USDADataPackageSection) -> bool {
    rec.report_date.valid() && rec.independent@.len() == 2 && rec.independent@[0]@
        == rec.report_date.spec_iso() && rec.entries@.len() == 4 && rec.entries@[0].0@
        == "measure_flag"@ && rec.entries@[1].0@ == "quality_flag"@ && rec.entries@[2].0@
        == "source_flag"@ && rec.entries@[3].0@ == "value"@ && rec.wf()
}


/// An observation whose records are eligible for the package: a supported
/// element and a year and month in the representable range.
pub open spec fn obs_eligible(obs: Observation) -> bool {
    spec_supported_noaa_element(obs.element@) && obs.year <= 9999 && obs.month <= 12
}

/// The day slot contributes a record: among the 31 slots, decoded, its
/// value present, and the day a real calendar day of the month.
pub open spec fn slot_kept(obs: Observation, day: int) -> bool {
    &&& 0 <= day < 31
    &&& day < obs.observations@.len()
    &&& match obs.observations@[day] {
        DaySlot::Decoded(d) => d.value is Some && (Date {
            year: obs.year as u32,
            month: obs.month as u32,
            day: (day + 1) as u32,
        }).valid(),
        DaySlot::Undecodable => false,
    }
}

/// How many of an observation's slots, from `day` on, contribute records.
pub open spec fn obs_kept_count(obs: Observation, day: int) -> int
    decreases obs.observations@.len() - day,
{
    if day < 0 || day >= obs.observations@.len() {
        0
    } else {
        (if slot_kept(obs, day) {
            1int
        } else {
            0int
        }) + obs_kept_count(obs, day + 1)
    }
}

/// How many records the observations from `i` on contribute.
pub open spec fn all_kept_count(observations: Seq<Observation>, i: int) -> int
    decreases observations.len() - i,
{
    if i < 0 || i >= observations.len() {
        0
    } else {
        (if obs_eligible(observations[i]) {
            obs_kept_count(observations[i], 0)
        } else {
            0int
        }) + all_kept_count(observations, i + 1)
    }
}

/// The records of a package, over the sections from `i` on.
pub open spec fn total_records(p: USDADataPackage, i: int) -> int
    decreases p.sections@.len() - i,
{
    if i < 0 || i >= p.sections@.len() {
        0
    } else {
        p.sections@[i].1@.len() + total_records(p, i + 1)
    }
}

/// Appending one record to one section adds exactly one to the total.
proof fn lemma_total_records_push(old_p: USDADataPackage, new_p: USDADataPackage, si: int, i: int)
    requires
        new_p.sections@.len() == old_p.sections@.len(),
        0 <= si < old_p.sections@.len(),
        new_p.sections@[si].1@.len() == old_p.sections@[si].1@.len() + 1,
        forall|j: int|
            0 <= j < old_p.sections@.len() && j != si ==> #[trigger] new_p.sections@[j]
                == old_p.sections@[j],
        0 <= i <= old_p.sections@.len(),
    ensures
        total_records(new_p, i) == total_records(old_p, i) + if i <= si {
            1int
        } else {
            0int
        },
    decreases old_p.sections@.len() - i,
{
    if i < old_p.sections@.len() {
        lemma_total_records_push(old_p, new_p, si, i + 1);
    }
}

/// Packages with the same per-section record counts have the same total.
proof fn lemma_total_records_same(a: USDADataPackage, b: USDADataPackage, i: int)
    requires
        a.sections@.len() == b.sections@.len(),
        forall|j: int|
            0 <= j < a.sections@.len() ==> (#[trigger] a.sections@[j]).1@.len()
                == b.sections@[j].1@.len(),
        0 <= i <= a.sections@.len(),
    ensures
        total_records(a, i) == total_records(b, i),
    decreases a.sections@.len() - i,
{
    if i < a.sections@.len() {
        lemma_total_records_same(a, b, i + 1);
    }
}

/// Appending one empty section leaves the total unchanged.
proof fn lemma_total_records_append_empty(old_p: USDADataPackage, new_p: USDADataPackage, i: int)
    requires
        new_p.sections@.len() == old_p.sections@.len() + 1,
        new_p.sections@.last().1@.len() == 0,
        forall|j: int|
            0 <= j < old_p.sections@.len() ==> #[trigger] new_p.sections@[j] == old_p.sections@[j],
        0 <= i <= old_p.sections@.len(),
    ensures
        total_records(new_p, i) == total_records(old_p, i),
    decreases old_p.sections@.len() - i,
{
    if i < old_p.sections@.len() {
        lemma_total_records_append_empty(old_p, new_p, i + 1);
    } else {
        assert(total_records(new_p, i) == new_p.sections@[i].1@.len() + total_records(
            new_p,
            i + 1,
        ));
    }
}

/// The record built from one kept day slot: that day's date and its ISO
/// text, the observation's station, and the four flag/value entries with
/// the slot's own texts.
pub open spec fn noaa_record_from_slot(
    obs: Observation,
    day: int,
    rec: USDADataPackageSection,
) -> bool {
    &&& slot_kept(obs, day)
    &&& match obs.observations@[day] {
        DaySlot::Decoded(d) => {
            let date = Date {
                year: obs.year as u32,
                month: obs.month as u32,
                day: (day + 1) as u32,
            };
            &&& rec.report_date == date
            &&& rec.independent@.len() == 2
            &&& rec.independent@[0]@ == date.spec_iso()
            &&& rec.independent@[1]@ == obs.station_id@
            &&& rec.entries@.len() == 4
            &&& rec.entries@[0].0@ == "measure_flag"@ && rec.entries@[0].1@ == (
            match d.measure_flag {
                Some(f) => f.spec_name(),
                None => Seq::empty(),
            })
            &&& rec.entries@[1].0@ == "quality_flag"@ && rec.entries@[1].1@ == (
            match d.quality_flag {
                Some(f) => f.spec_name(),
                None => Seq::empty(),
            })
            &&& rec.entries@[2].0@ == "source_flag"@ && rec.entries@[2].1@ == seq![d.source_flag]
            &&& rec.entries@[3].0@ == "value"@ && rec.entries@[3].1@ == (match d.value {
                Some(v) => spec_int_seq(v as int),
                None => Seq::empty(),
            })
        },
        DaySlot::Undecodable => false,
    }
}

/// The record comes from a kept day slot of some observation with this
/// element.
pub open spec fn record_of_element(
    observations: Seq<Observation>,
    element: Seq<char>,
    rec: USDADataPackageSection,
) -> bool {
    exists|oi: int, day: int|
        #![trigger noaa_record_from_slot(observations[oi], day, rec)]
        0 <= oi < observations.len() && observations[oi].element@ == element
            && noaa_record_from_slot(observations[oi], day, rec)
}

/// Normalize decoded observations into the canonical package. Only
/// supported elements are kept; a day slot contributes a record only when
/// it decoded and its value is present — sentinel-absent and undecodable
/// slots are excluded; a day number that is no real calendar day of the
/// record's month is skipped.
pub fn from_observations(observations: Vec<Observation>) -> (p: USDADataPackage)
    ensures
        p.name@ == "NOAA"@,
        p.wf(),
        forall|i: int|
            0 <= i < p.sections@.len() ==> spec_supported_noaa_element(
                (#[trigger] p.sections@[i]).0@,
            ),
        forall|i: int, j: int|
            0 <= i < p.sections@.len() && 0 <= j < p.sections@[i].1@.len() ==> noaa_record_shape(
                #[trigger] p.sections@[i].1@[j],
            ),
        forall|i: int, j: int|
            0 <= i < p.sections@.len() && 0 <= j < p.sections@[i].1@.len() ==> record_of_element(
                observations@,
                p.sections@[i].0@,
                #[trigger] p.sections@[i].1@[j],
            ),
        forall|i: int| 0 <= i < p.sections@.len() ==> (#[trigger] p.sections@[i]).1@.len() >= 1,
        total_records(p, 0) == all_kept_count(observations@, 0),
{
    let mut package = USDADataPackage::new("NOAA".to_owned());
    let mut oi: usize = 0;
    while oi < observations.len()
        invariant
            package.name@ == "NOAA"@,
            package.wf(),
            forall|i: int|
                0 <= i < package.sections@.len() ==> spec_supported_noaa_element(
                    (#[trigger] package.sections@[i]).0@,
                ),
            forall|i: int, j: int|
                0 <= i < package.sections@.len() && 0 <= j < package.sections@[i].1@.len()
                    ==> noaa_record_shape(#[trigger] package.sections@[i].1@[j]),
            forall|i: int, j: int|
                0 <= i < package.sections@.len() && 0 <= j < package.sections@[i].1@.len()
                    ==> record_of_element(
                    observations@,
                    package.sections@[i].0@,
                    #[trigger] package.sections@[i].1@[j],
                ),
            forall|i: int|
                0 <= i < package.sections@.len() ==> (#[trigger] package.sections@[i]).1@.len()
                    >= 1,
            total_records(package, 0) + all_kept_count(observations@, oi as int)
                == all_kept_count(observations@, 0),
        decreases observations@.len() - oi,
    {
        let obs = &observations[oi];
        let eligible = supported_noaa_element(obs.element.as_str()) && obs.year <= 9999
            && obs.month <= 12;
        proof {
            assert(eligible == obs_eligible(observations@[oi as int]));
        }
        if eligible {
            let year32: u32 = obs.year as u32;
            let month32: u32 = obs.month as u32;
            let mut day: usize = 0;
            while day < obs.observations.len()
                invariant
                    day <= obs.observations@.len(),
                    obs == &observations@[oi as int],
                    oi < observations@.len(),
                    spec_supported_noaa_element(obs.element@),
                    package.name@ == "NOAA"@,
                    package.wf(),
                    year32 == obs.year as u32,
                    month32 == obs.month as u32,
                    year32 <= 9999,
                    month32 <= 12,
                    forall|i: int|
                        0 <= i < package.sections@.len() ==> spec_supported_noaa_element(
                            (#[trigger] package.sections@[i]).0@,
                        ),
                    forall|i: int, j: int|
                        0 <= i < package.sections@.len() && 0 <= j
                            < package.sections@[i].1@.len() ==> noaa_record_shape(
                            #[trigger] package.sections@[i].1@[j],
                        ),
                    forall|i: int, j: int|
                        0 <= i < package.sections@.len() && 0 <= j
                            < package.sections@[i].1@.len() ==> record_of_element(
                            observations@,
                            package.sections@[i].0@,
                            #[trigger] package.sections@[i].1@[j],
                        ),
                    forall|i: int|
                        0 <= i < package.sections@.len() ==> (
                        #[trigger] package.sections@[i]).1@.len() >= 1,
                    total_records(package, 0) + obs_kept_count(*obs, day as int)
                        + all_kept_count(observations@, oi + 1) == all_kept_count(
                        observations@,
                        0,
                    ),
                decreases obs.observations@.len() - day,
            {
                let ghost day_pkg = package;
                if day < 31 {
                    if let DaySlot::Decoded(d) = obs.observations[day] {
                        if let Some(v) = d.value {
                            if let Some(date) = Date::new(
                                year32,
                                month32,
                                (day as u32) + 1,
                            ) {
                                let mut rec = USDADataPackageSection::new(date);
                                rec.independent.push(date.format_iso());
                                rec.independent.push(obs.station_id.clone());
                                let measure_string = match d.measure_flag {
                                    Some(f) => f.name(),
                                    None => String::new(),
                                };
                                let quality_string = match d.quality_flag {
                                    Some(f) => f.name(),
                                    None => String::new(),
                                };
                                let mut source_string = String::new();
                                source_string.push(d.source_flag);
                                let value_string = format_i32(v);
                                rec.entries.push(("measure_flag".to_owned(), measure_string));
                                rec.entries.push(("quality_flag".to_owned(), quality_string));
                                rec.entries.push(("source_flag".to_owned(), source_string));
                                rec.entries.push(("value".to_owned(), value_string));
                                proof {
                                    reveal_strlit("measure_flag");
                                    reveal_strlit("quality_flag");
                                    reveal_strlit("source_flag");
                                    reveal_strlit("value");
                                    let e = rec.entries@;
                                    assert(e.len() == 4);
                                    assert(e[0].0@ == "measure_flag"@);
                                    assert(e[1].0@ == "quality_flag"@);
                                    assert(e[2].0@ == "source_flag"@);
                                    assert(e[3].0@ == "value"@);
                                    assert("measure_flag"@[0] == 'm');
                                    assert("quality_flag"@[0] == 'q');
                                    assert("source_flag"@[0] == 's');
                                    assert("value"@[0] == 'v');
                                    assert forall|a: int, b: int|
                                        0 <= a < b < e.len() implies (#[trigger] e[a]).0@ != (
                                    #[trigger] e[b]).0@ by {
                                        assert(e[a].0@[0] != e[b].0@[0]);
                                    }
                                    assert(rec.wf());
                                    assert(noaa_record_shape(rec));
                                    assert(rec.entries@[2].1@ =~= seq![d.source_flag]);
                                    assert(slot_kept(*obs, day as int));
                                    assert(noaa_record_from_slot(
                                        observations@[oi as int],
                                        day as int,
                                        rec,
                                    ));
                                    assert(record_of_element(observations@, obs.element@, rec));
                                }
                                let ghost before_pkg = package;
                                let si = package.section_index(obs.element.as_str());
                                proof {
                                    if package.sections@.len() == before_pkg.sections@.len()
                                        + 1 {
                                        lemma_total_records_append_empty(before_pkg, package, 0);
                                    } else {
                                        lemma_total_records_same(before_pkg, package, 0);
                                    }
                                    assert(total_records(package, 0) == total_records(
                                        before_pkg,
                                        0,
                                    ));
                                    assert forall|i: int|
                                        0 <= i < package.sections@.len() implies spec_supported_noaa_element(
                                        (#[trigger] package.sections@[i]).0@,
                                    ) by {
                                        if i < before_pkg.sections@.len() {
                                            assert(package.sections@[i]
                                                == before_pkg.sections@[i]);
                                        } else {
                                            assert(i == si as int);
                                        }
                                    }
                                    assert forall|i: int, j: int|
                                        0 <= i < package.sections@.len() && 0 <= j
                                            < package.sections@[i].1@.len() implies noaa_record_shape(
                                        #[trigger] package.sections@[i].1@[j],
                                    ) && record_of_element(
                                        observations@,
                                        package.sections@[i].0@,
                                        package.sections@[i].1@[j],
                                    ) by {
                                        if i < before_pkg.sections@.len() {
                                            assert(package.sections@[i]
                                                == before_pkg.sections@[i]);
                                        } else {
                                            assert(package.sections@[i].1@.len() == 0);
                                        }
                                    }
                                }
                                let ghost old_pkg = package;
                                package.push_record(si, rec);
                                proof {
                                    lemma_total_records_push(old_pkg, package, si as int, 0);
                                    assert(slot_kept(*obs, day as int));
                                    assert forall|i: int, j: int|
                                        0 <= i < package.sections@.len() && 0 <= j
                                            < package.sections@[i].1@.len() implies noaa_record_shape(
                                        #[trigger] package.sections@[i].1@[j],
                                    ) && record_of_element(
                                        observations@,
                                        package.sections@[i].0@,
                                        package.sections@[i].1@[j],
                                    ) by {
                                        if i == si {
                                            if j < old_pkg.sections@[i].1@.len() {
                                                assert(package.sections@[i].1@[j]
                                                    == old_pkg.sections@[i].1@[j]);
                                            } else {
                                                assert(package.sections@[i].1@[j] == rec);
                                            }
                                            assert(package.sections@[i].0
                                                == old_pkg.sections@[i].0);
                                        } else {
                                            assert(package.sections@[i]
                                                == old_pkg.sections@[i]);
                                        }
                                    }
                                    assert forall|i: int|
                                        0 <= i < package.sections@.len() implies (
                                    #[trigger] package.sections@[i]).1@.len() >= 1 by {
                                        if i != si {
                                            assert(package.sections@[i]
                                                == old_pkg.sections@[i]);
                                            if i < before_pkg.sections@.len() {
                                                assert(old_pkg.sections@[i]
                                                    == before_pkg.sections@[i]);
                                            }
                                        }
                                    }
                                }
                            }
                        }
                    }
                }
                proof {
                    assert(obs_kept_count(*obs, day as int) == (if slot_kept(*obs, day as int) {
                        1int
                    } else {
                        0int
                    }) + obs_kept_count(*obs, day + 1));
                    if !slot_kept(*obs, day as int) {
                        assert(total_records(package, 0) == total_records(day_pkg, 0));
                    }
                }
                day += 1;
            }
        }
        oi += 1;
    }
    proof {
        assert(all_kept_count(observations@, observations@.len() as int) == 0);
    }
    package
}

/// Shape of each element section of the weather-report schema.
pub open spec fn noaa_section_shape(s: DatamartSection) -> bool {
    s.alias is None && s.independent@.len() == 2 && s.independent@[0]@ == "report_date"@
        && s.independent@[1]@ == "station_id"@ && s.fields@.len() == 4 && s.fields@[0]@
        == "measure_flag"@ && s.fields@[1]@ == "source_flag"@ && s.fields@[2]@ == "quality_flag"@
        && s.fields@[3]@ == "value"@
}

fn noaa_section() -> (s: DatamartSection)
    ensures
        noaa_section_shape(s),
{
    let mut independent: Vec<String> = Vec::new();
    independent.push("report_date".to_owned());
    independent.push("station_id".to_owned());
    let mut fields: Vec<String> = Vec::new();
    fields.push("measure_flag".to_owned());
    fields.push("source_flag".to_owned());
    fields.push("quality_flag".to_owned());
    fields.push("value".to_owned());
    DatamartSection { alias: None, independent, fields }
}

/// The weather-data report schema: one section per supported element, each
/// keyed by report date and station id with the four flag/value fields.
pub fn noaa_structure() -> (c: DatamartConfig)
    ensures
        c.name@ == "NOAA"@,
        c.description@ == "National Oceanic and Atmospheric Administration Weather Data"@,
        c.independent@ == "report_date"@,
        c.sections@.len() == 4,
        c.sections@[0].0@ == "TMAX"@,
        c.sections@[1].0@ == "TMIN"@,
        c.sections@[2].0@ == "TAVG"@,
        c.sections@[3].0@ == "EVAP"@,
        forall|i: int| 0 <= i < 4 ==> noaa_section_shape((#[trigger] c.sections@[i]).1),
{
    let mut sections: Vec<(String, DatamartSection)> = Vec::new();
    sections.push(("TMAX".to_owned(), noaa_section()));
    sections.push(("TMIN".to_owned(), noaa_section()));
    sections.push(("TAVG".to_owned(), noaa_section()));
    sections.push(("EVAP".to_owned(), noaa_section()));
    DatamartConfig {
        name: "NOAA".to_owned(),
        description: "National Oceanic and Atmospheric Administration Weather Data".to_owned(),
        independent: "report_date".to_owned(),
        sections,
    }
}

/// Canonically encode one day observation as its 8-character group.
#[verifier::rlimit(60)]
pub fn encode_group(d: &DailyObservation) -> (v: Vec<char>)
    requires
        valid_day_obs(*d),
    ensures
        v@ == spec_encode_group(*d),
{
    let mut v: Vec<char> = Vec::new();
    match d.value {
        None => {
            v.push('-');
            v.push('9');
            v.push('9');
            v.push('9');
            v.push('9');
            proof {
                assert(v@ =~= spec_encode_value(d.value));
            }
        },
        Some(x) => {
            let rendered = format_i32(x);
            let ds = crate::text::chars_of_str(rendered.as_str());
            proof {
                lemma_encode_value_parses(d.value);
                assert(ds@ =~= (if x < 0 {
                    seq!['-'] + dec_digits((-x) as nat)
                } else {
                    dec_digits(x as nat)
                }));
            }
            let mut pad = 5 - ds.len();
            let ghost padn = pad as nat;
            while pad > 0
                invariant
                    v@ =~= spaces((padn - pad) as nat),
                    pad <= padn,
                decreases pad,
            {
                v.push(' ');
                proof {
                    assert(v@ =~= spaces((padn - pad + 1) as nat));
                }
                pad -= 1;
            }
            let mut i: usize = 0;
            while i < ds.len()
                invariant
                    i <= ds@.len(),
                    v@ =~= spaces(padn) + ds@.subrange(0, i as int),
                decreases ds@.len() - i,
            {
                v.push(ds[i]);
                proof {
                    assert(v@ =~= spaces(padn) + ds@.subrange(0, i + 1));
                }
                i += 1;
            }
            proof {
                assert(ds@.subrange(0, ds@.len() as int) =~= ds@);
                assert(v@ =~= spec_encode_value(d.value));
            }
        },
    }
    match d.measure_flag {
        None => {
            v.push(' ');
        },
        Some(f) => {
            v.push(f.code());
        },
    }
    match d.quality_flag {
        None => {
            v.push(' ');
        },
        Some(f) => {
            v.push(f.code());
        },
    }
    v.push(d.source_flag);
    proof {
        assert(v@ =~= spec_encode_group(*d));
    }
    v
}

/// An unrecognized flag character is a decode error for its whole group —
/// never a silently assigned default variant: a decoded group's flags come
/// exactly from the closed code tables.
pub proof fn lemma_unrecognized_flag_is_error(g: Seq<char>, d: DailyObservation)
    ensures
        g[5] != ' ' && MeasurementFlag::spec_from_code(g[5]) is None ==> spec_slot(g)
            == DaySlot::Undecodable,
        g[6] != ' ' && QualityFlag::spec_from_code(g[6]) is None ==> spec_slot(g)
            == DaySlot::Undecodable,
        spec_slot(g) == DaySlot::Decoded(d) ==> match d.measure_flag {
            Some(f) => MeasurementFlag::spec_from_code(g[5]) == Some(f),
            None => g[5] == ' ',
        },
        spec_slot(g) == DaySlot::Decoded(d) ==> match d.quality_flag {
            Some(f) => QualityFlag::spec_from_code(g[6]) == Some(f),
            None => g[6] == ' ',
        },
{
}

} // verus!
