//! Text fields of the raw fund and benchmark files.
use vstd::prelude::*;
use vstd::string::{StrSliceExecFns, StringExecFns};

verus! {

/// The abbreviation names no month.
#[derive(Debug, Clone, Copy, PartialEq, Eq, Structural)]
pub enum MonthError {
    UnknownMonth,
}

/// The two-digit number of a month given by its Portuguese abbreviation.
pub open spec fn month_number(s: Seq<char>) -> Option<Seq<char>> {
    if s == "Jan"@ {
        Some("01"@)
    } else if s == "Fev"@ {
        Some("02"@)
    } else if s == "Mar"@ {
        Some("03"@)
    } else if s == "Abr"@ {
        Some("04"@)
    } else if s == "Mai"@ {
        Some("05"@)
    } else if s == "Jun"@ {
        Some("06"@)
    } else if s == "Jul"@ {
        Some("07"@)
    } else if s == "Ago"@ {
        Some("08"@)
    } else if s == "Set"@ {
        Some("09"@)
    } else if s == "Out"@ {
        Some("10"@)
    } else if s == "Nov"@ {
        Some("11"@)
    } else if s == "Dez"@ {
        Some("12"@)
    } else {
        None
    }
}

fn text_eq(a: &str, b: &str) -> (r: bool)
    ensures
        r == (a@ == b@),
{
    let n = a.unicode_len();
    if n != b.unicode_len() {
        return false;
    }
    let mut i: usize = 0;
    while i < n
        invariant
            i <= n,
            n == a@.len(),
            n == b@.len(),
            forall|j: int| 0 <= j < i ==> a@[j] == b@[j],
        decreases n - i,
    {
        if a.get_char(i) != b.get_char(i) {
            return false;
        }
        i = i + 1;
    }
    assert(a@ =~= b@);
    true
}

/// The two-digit number of the month abbreviated `s`.
pub fn get_month(s: &str) -> (r: Result<&'static str, MonthError>)
    ensures
        match month_number(s@) {
            Some(m) => r matches Ok(x) && x@ == m,
            None => r == Err::<&'static str, MonthError>(MonthError::UnknownMonth),
        },
{
    if text_eq(s, "Jan") {
        Ok("01")
    } else if text_eq(s, "Fev") {
        Ok("02")
    } else if text_eq(s, "Mar") {
        Ok("03")
    } else if text_eq(s, "Abr") {
        Ok("04")
    } else if text_eq(s, "Mai") {
        Ok("05")
    } else if text_eq(s, "Jun") {
        Ok("06")
    } else if text_eq(s, "Jul") {
        Ok("07")
    } else if text_eq(s, "Ago") {
        Ok("08")
    } else if text_eq(s, "Set") {
        Ok("09")
    } else if text_eq(s, "Out") {
        Ok("10")
    } else if text_eq(s, "Nov") {
        Ok("11")
    } else if text_eq(s, "Dez") {
        Ok("12")
    } else {
        Err(MonthError::UnknownMonth)
    }
}

/// Position of the first `_` of `s` at or after `from`.
pub open spec fn underscore_from(s: Seq<char>, from: int) -> Option<int>
    decreases s.len() - from,
{
    if from < 0 || from >= s.len() {
        None
    } else if s[from] == '_' {
        Some(from)
    } else {
        underscore_from(s, from + 1)
    }
}

proof fn lemma_underscore_from_range(s: Seq<char>, from: int)
    ensures
        underscore_from(s, from) matches Some(i) ==> from <= i < s.len() && s[i] == '_',
    decreases s.len() - from,
{
    if from >= 0 && from < s.len() && s[from] != '_' {
        lemma_underscore_from_range(s, from + 1);
    }
}

fn find_underscore(s: &str, from: usize) -> (r: Option<usize>)
    requires
        from <= s@.len(),
    ensures
        match r {
            Some(i) => underscore_from(s@, from as int) == Some(i as int),
            None => underscore_from(s@, from as int) is None,
        },
{
    let n = s.unicode_len();
    let mut i = from;
    while i < n
        invariant
            from <= i <= n,
            n == s@.len(),
            underscore_from(s@, from as int) == underscore_from(s@, i as int),
        decreases n - i,
    {
        if s.get_char(i) == '_' {
            return Some(i);
        }
        i = i + 1;
    }
    None
}

/// The name of a raw fund file (without extension) does not hold an id and a
/// year separated as expected.
#[derive(Debug, Clone, Copy, PartialEq, Eq, Structural)]
pub enum FileNameError {
    MissingSeparator,
}

/// The fund id and the year held in the name of a raw fund file.
///
/// The name is the fund's registry number with its `/` written as `_`, then
/// `_`, then the year: the first `_` becomes `/` again, and the name is cut at
/// the next one.
pub fn split_fund_file_name(stem: &str) -> (r: Result<(String, String), FileNameError>)
    ensures
        match underscore_from(stem@, 0) {
            None => r == Err::<(String, String), FileNameError>(FileNameError::MissingSeparator),
            Some(i) => match underscore_from(stem@, i + 1) {
                None => r == Err::<(String, String), FileNameError>(FileNameError::MissingSeparator),
                Some(j) => r matches Ok((id, year)) && id@ == stem@.subrange(0, i) + seq!['/']
                    + stem@.subrange(i + 1, j) && year@ == stem@.subrange(j + 1, stem@.len() as int),
            },
        },
{
    let n = stem.unicode_len();
    let i = match find_underscore(stem, 0) {
        Some(i) => i,
        None => {
            return Err(FileNameError::MissingSeparator);
        },
    };
    proof {
        lemma_underscore_from_range(stem@, 0);
    }
    let j = match find_underscore(stem, i + 1) {
        Some(j) => j,
        None => {
            return Err(FileNameError::MissingSeparator);
        },
    };
    proof {
        lemma_underscore_from_range(stem@, i + 1);
        reveal_strlit("/");
    }
    let mut id = String::new();
    id.append(stem.substring_char(0, i));
    id.append("/");
    id.append(stem.substring_char(i + 1, j));
    let mut year = String::new();
    year.append(stem.substring_char(j + 1, n));
    assert(id@ =~= stem@.subrange(0, i as int) + seq!['/'] + stem@.subrange(i + 1, j as int));
    assert(year@ =~= stem@.subrange(j + 1, stem@.len() as int));
    Ok((id, year))
}

/// A number written with a decimal comma, rewritten with a decimal point:
/// every `,` becomes `.`.
pub fn decimal_point(s: &str) -> (r: String)
    ensures
        r@ == s@.map_values(|c: char| if c == ',' { '.' } else { c }),
{
    let ghost target = s@.map_values(|c: char| if c == ',' { '.' } else { c });
    let n = s.unicode_len();
    let mut r = String::new();
    let mut i: usize = 0;
    while i < n
        invariant
            i <= n,
            n == s@.len(),
            target == s@.map_values(|c: char| if c == ',' { '.' } else { c }),
            r@ == target.take(i as int),
        decreases n - i,
    {
        let ghost before = r@;
        if s.get_char(i) == ',' {
            proof {
                reveal_strlit(".");
            }
            r.append(".");
        } else {
            r.append(s.substring_char(i, i + 1));
        }
        assert(r@ =~= target.take(i + 1));
        i = i + 1;
    }
    assert(target.take(n as int) =~= target);
    r
}

/// The date key of the first day of a month: the year, `-`, the two-digit
/// month, then `-01`.
pub fn month_start(year: &str, month: &str) -> (r: Result<String, MonthError>)
    ensures
        match month_number(month@) {
            Some(m) => r matches Ok(d) && d@ == year@ + seq!['-'] + m + seq!['-', '0', '1'],
            None => r == Err::<String, MonthError>(MonthError::UnknownMonth),
        },
{
    let m = match get_month(month) {
        Ok(m) => m,
        Err(e) => {
            return Err(e);
        },
    };
    proof {
        reveal_strlit("-");
        reveal_strlit("-01");
    }
    let mut d = String::new();
    d.append(year);
    d.append("-");
    d.append(m);
    d.append("-01");
    assert(d@ =~= year@ + seq!['-'] + m@ + seq!['-', '0', '1']);
    Ok(d)
}

} // verus!
