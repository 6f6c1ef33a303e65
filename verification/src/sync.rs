//! The sync controller's verified core: the incremental fetch window from
//! the persisted watermark and today's date, the fold of per-table maximum
//! dates, and the backfill file filter.

use vstd::prelude::*;

use crate::dates::Date;
use crate::text::{lower_char, lower_seq, lower_char_exec};

verus! {

/// The fallback epoch where no row has ever been persisted.
pub open spec fn spec_epoch() -> Date {
    Date { year: 2008, month: 1, day: 1 }
}

pub fn sync_epoch() -> (d: Date)
    ensures
        d == spec_epoch(),
        d.valid(),
{
    Date { year: 2008, month: 1, day: 1 }
}

/// The incremental fetch window. With a persisted watermark D and today T:
/// when T is on or after D's next day, the window is exactly that next day
/// through T; otherwise the source is current and nothing is fetched. With
/// no watermark the window starts at the fallback epoch.
pub fn sync_window(watermark: Option<Date>, today: Date) -> (r: Option<(Date, Date)>)
    requires
        match watermark {
            Some(d) => d.valid() && !(d.year == 9999 && d.month == 12 && d.day == 31),
            None => true,
        },
        today.valid(),
    ensures
        match watermark {
            Some(d) => if d.spec_succ().spec_le(today) {
                r == Some((d.spec_succ(), today))
            } else {
                r is None
            },
            None => if spec_epoch().spec_le(today) {
                r == Some((spec_epoch(), today))
            } else {
                r is None
            },
        },
{
    let start = match watermark {
        Some(d) => d.succ(),
        None => sync_epoch(),
    };
    if start.le(&today) {
        Some((start, today))
    } else {
        None
    }
}

/// `m` is the maximum of the dates present in `dates`.
pub open spec fn is_max_date(dates: Seq<Option<Date>>, m: Date) -> bool {
    &&& exists|i: int| 0 <= i < dates.len() && dates[i] == Some(m)
    &&& forall|i: int|
        0 <= i < dates.len() ==> match #[trigger] dates[i] {
            Some(d) => d.key() <= m.key(),
            None => true,
        }
}

/// The latest date among the per-table maxima; `None` exactly when no table
/// holds any row.
pub fn max_date(dates: &Vec<Option<Date>>) -> (r: Option<Date>)
    ensures
        match r {
            Some(m) => is_max_date(dates@, m),
            None => forall|i: int| 0 <= i < dates@.len() ==> (#[trigger] dates@[i]) is None,
        },
{
    let mut best: Option<Date> = None;
    let mut i: usize = 0;
    while i < dates.len()
        invariant
            i <= dates@.len(),
            match best {
                Some(m) => {
                    &&& exists|j: int| 0 <= j < i && dates@[j] == Some(m)
                    &&& forall|j: int|
                        0 <= j < i ==> match #[trigger] dates@[j] {
                            Some(d) => d.key() <= m.key(),
                            None => true,
                        }
                },
                None => forall|j: int| 0 <= j < i ==> (#[trigger] dates@[j]) is None,
            },
        decreases dates@.len() - i,
    {
        match &dates[i] {
            Some(value) => {
                let v = *value;
                match &best {
                    Some(m) => {
                        let mk: u64 = m.year as u64 * 10000 + m.month as u64 * 100 + m.day as u64;
                        let vk: u64 = v.year as u64 * 10000 + v.month as u64 * 100 + v.day as u64;
                        if mk < vk {
                            best = Some(v);
                            proof {
                                assert(dates@[i as int] == Some(v));
                            }
                        } else {
                            proof {
                                assert(dates@[i as int] == Some(v));
                            }
                        }
                    },
                    None => {
                        best = Some(v);
                        proof {
                            assert(dates@[i as int] == Some(v));
                        }
                    },
                }
            },
            None => {},
        }
        i += 1;
    }
    best
}

/// The lower-cased text after the last dot (the whole lower-cased name when
/// there is no dot).
pub open spec fn suffix_after_dot(s: Seq<char>) -> Seq<char>
    decreases s.len(),
{
    if s.len() == 0 {
        s
    } else if s.last() == '.' {
        Seq::empty()
    } else {
        suffix_after_dot(s.drop_last()).push(s.last())
    }
}

/// Whether a directory entry is kept by the backfill scan: a folder, or a
/// file whose lower-cased name ends in the text extension.
pub fn is_report_file(file_name: &str, is_folder: bool) -> (r: bool)
    ensures
        r == (is_folder || suffix_after_dot(lower_seq(file_name@)) =~= "txt"@),
{
    if is_folder {
        return true;
    }
    let chars = crate::text::chars_of_str(file_name);
    let n = chars.len();
    let mut ext = String::new();
    let mut i: usize = 0;
    while i < n
        invariant
            i <= n == chars@.len(),
            chars@ == file_name@,
            ext@ == suffix_after_dot(lower_seq(file_name@).subrange(0, i as int)),
        decreases n - i,
    {
        let c = chars[i];
        proof {
            let lo = lower_seq(file_name@);
            assert(lo.subrange(0, i + 1).drop_last() =~= lo.subrange(0, i as int));
            assert(lo.subrange(0, i + 1).last() == lower_char(file_name@[i as int]));
        }
        if c == '.' {
            ext = String::new();
        } else {
            ext.push(lower_char_exec(c));
        }
        i += 1;
    }
    proof {
        assert(lower_seq(file_name@).subrange(0, n as int) =~= lower_seq(file_name@));
    }
    let r = crate::text::str_eq(ext.as_str(), "txt");
    proof {
        if ext@ == "txt"@ {
            assert(suffix_after_dot(lower_seq(file_name@)) =~= "txt"@);
        }
    }
    r
}

} // verus!
