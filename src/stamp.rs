use vstd::prelude::*;
use crate::text::texts_view;

verus! {

/// A local date and time as the C library's broken-down time gives it.
pub struct LocalTime {
    /// 1 to 31.
    pub day_of_month: i32,
    /// 0 for January to 11 for December.
    pub months_since_january: i32,
    pub years_since_1900: i32,
    /// 0 to 23.
    pub hour: i32,
    /// 0 to 59.
    pub minute: i32,
    /// 0 to 60, for a leap second.
    pub second: i32,
}

impl LocalTime {
    /// Every field within its documented range.
    pub open spec fn valid(&self) -> bool {
        &&& 1 <= self.day_of_month <= 31
        &&& 0 <= self.months_since_january <= 11
        &&& 0 <= self.hour <= 23
        &&& 0 <= self.minute <= 59
        &&& 0 <= self.second <= 60
    }
}

/// Relies on `time::now`: the local time, each field of `time::Tm` copied
/// over; the field ranges are those that `time::Tm` documents.
#[verifier::external_body]
fn local_now() -> (r: LocalTime)
    ensures
        r.valid(),
{
    let now = time::now();
    LocalTime {
        day_of_month: now.tm_mday,
        months_since_january: now.tm_mon,
        years_since_1900: now.tm_year,
        hour: now.tm_hour,
        minute: now.tm_min,
        second: now.tm_sec,
    }
}

pub open spec fn digit_char(d: nat) -> char {
    if d == 0 { '0' } else if d == 1 { '1' } else if d == 2 { '2' } else if d == 3 { '3' }
    else if d == 4 { '4' } else if d == 5 { '5' } else if d == 6 { '6' } else if d == 7 { '7' }
    else if d == 8 { '8' } else { '9' }
}

/// The decimal digits of `n`, without leading zeros.
pub open spec fn digits(n: nat) -> Seq<char>
    decreases n,
{
    if n < 10 {
        seq![digit_char(n)]
    } else {
        digits(n / 10).push(digit_char(n % 10))
    }
}

/// `n` in decimal, with a minus sign when negative.
pub open spec fn int_text(n: int) -> Seq<char> {
    if n < 0 { seq!['-'] + digits((-n) as nat) } else { digits(n as nat) }
}

/// `day.month.year hour:minute:second`, month counted from 1, year in full,
/// no padding.
pub open spec fn stamp_text(t: LocalTime) -> Seq<char> {
    int_text(t.day_of_month as int) + seq!['.'] + int_text(t.months_since_january + 1) + seq!['.']
        + int_text(t.years_since_1900 + 1900) + seq![' '] + int_text(t.hour as int) + seq![':']
        + int_text(t.minute as int) + seq![':'] + int_text(t.second as int)
}

fn digit_text(d: u64) -> (r: &'static str)
    requires
        d < 10,
    ensures
        r@ == seq![digit_char(d as nat)],
{
    proof {
        reveal_strlit("0");
        reveal_strlit("1");
        reveal_strlit("2");
        reveal_strlit("3");
        reveal_strlit("4");
        reveal_strlit("5");
        reveal_strlit("6");
        reveal_strlit("7");
        reveal_strlit("8");
        reveal_strlit("9");
    }
    if d == 0 { "0" } else if d == 1 { "1" } else if d == 2 { "2" } else if d == 3 { "3" }
    else if d == 4 { "4" } else if d == 5 { "5" } else if d == 6 { "6" } else if d == 7 { "7" }
    else if d == 8 { "8" } else { "9" }
}

fn digits_of(n: u64) -> (r: String)
    ensures
        r@ == digits(n as nat),
    decreases n,
{
    if n < 10 {
        String::from_str(digit_text(n))
    } else {
        let mut r = digits_of(n / 10);
        r.append(digit_text(n % 10));
        r
    }
}

/// `n` in decimal.
pub fn decimal(n: i64) -> (r: String)
    ensures
        r@ == int_text(n as int),
{
    if n < 0 {
        let m: u64 = if n == i64::MIN { 9223372036854775808u64 } else { (-n) as u64 };
        let mut r = String::from_str("-");
        proof {
            reveal_strlit("-");
        }
        r.append(digits_of(m).as_str());
        r
    } else {
        digits_of(n as u64)
    }
}

fn append_text(s: &mut String, t: &str)
    ensures
        final(s)@ == old(s)@ + t@,
{
    s.append(t);
}

/// The local time `t` as `day.month.year hour:minute:second`.
pub fn format_stamp(t: &LocalTime) -> (r: String)
    ensures
        r@ == stamp_text(*t),
{
    proof {
        reveal_strlit(".");
        reveal_strlit(" ");
        reveal_strlit(":");
    }
    let mut r = decimal(t.day_of_month as i64);
    append_text(&mut r, ".");
    append_text(&mut r, decimal(t.months_since_january as i64 + 1).as_str());
    append_text(&mut r, ".");
    append_text(&mut r, decimal(t.years_since_1900 as i64 + 1900).as_str());
    append_text(&mut r, " ");
    append_text(&mut r, decimal(t.hour as i64).as_str());
    append_text(&mut r, ":");
    append_text(&mut r, decimal(t.minute as i64).as_str());
    append_text(&mut r, ":");
    append_text(&mut r, decimal(t.second as i64).as_str());
    proof {
        assert(r@ =~= stamp_text(*t));
    }
    r
}

/// The key of the annotation that a new file starts with.
pub open spec fn creation_key() -> Seq<char> {
    seq!['c', 'r', 'e', 'a', 't', 'i', 'o', 'n', ' ', 't', 'i', 'm', 'e']
}

/// The lines of a new file: one directory annotation `creation time` whose
/// value is `stamp` and whose context is `reason`.
pub open spec fn creation_file(stamp: Seq<char>, reason: Seq<char>) -> Seq<Seq<char>> {
    seq![seq!['>'] + creation_key(), seq!['='] + stamp, seq!['<'] + reason]
}

/// The lines of a new annotation file made at `stamp` for `reason`.
pub fn creation_lines(stamp: &str, reason: &str) -> (r: Vec<String>)
    ensures
        texts_view(r@) == creation_file(stamp@, reason@),
{
    proof {
        reveal_strlit(">creation time");
        reveal_strlit("=");
        reveal_strlit("<");
    }
    let mut r: Vec<String> = Vec::new();
    r.push(String::from_str(">creation time"));
    let mut value = String::from_str("=");
    value.append(stamp);
    r.push(value);
    let mut context = String::from_str("<");
    context.append(reason);
    r.push(context);
    proof {
        assert(">creation time"@ =~= seq!['>'] + creation_key());
        assert("="@ =~= seq!['=']);
        assert("<"@ =~= seq!['<']);
        assert(texts_view(r@)[0] == r@[0]@);
        assert(texts_view(r@)[1] == r@[1]@);
        assert(texts_view(r@)[2] == r@[2]@);
        assert(texts_view(r@) =~= creation_file(stamp@, reason@));
    }
    r
}

/// The lines of a new annotation file made now for `reason`.
pub fn new_file_lines(reason: &str) -> (r: Vec<String>)
    ensures
        exists|t: LocalTime| t.valid() && texts_view(r@) == creation_file(stamp_text(t), reason@),
{
    let now = local_now();
    let stamp = format_stamp(&now);
    creation_lines(stamp.as_str(), reason)
}

} // verus!
