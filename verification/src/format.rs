//! Display-support helpers: the human-relative due/overdue phrase, and
//! content trimming for display. Trimming never alters stored content —
//! it only shortens the string that is handed back for printing.

use vstd::prelude::*;
use vstd::string::StrSliceExecFns;
use vstd::string::StringExecFns;
use crate::time::{Timestamp, SECONDS_PER_DAY, SECONDS_PER_HOUR, SECONDS_PER_MINUTE};

verus! {

/// The decimal digit character for `d` (zero through nine).
pub open spec fn spec_digit_char(d: int) -> char {
    if d == 0 {
        '0'
    } else if d == 1 {
        '1'
    } else if d == 2 {
        '2'
    } else if d == 3 {
        '3'
    } else if d == 4 {
        '4'
    } else if d == 5 {
        '5'
    } else if d == 6 {
        '6'
    } else if d == 7 {
        '7'
    } else if d == 8 {
        '8'
    } else {
        '9'
    }
}

/// The decimal digit string of `n`, most significant digit first.
pub open spec fn spec_decimal(n: nat) -> Seq<char>
    decreases n,
{
    if n < 10 {
        seq![spec_digit_char(n as int)]
    } else {
        spec_decimal(n / 10).push(spec_digit_char((n % 10) as int))
    }
}

fn digit_str(d: u64) -> (s: &'static str)
    requires
        d < 10,
    ensures
        s@ == seq![spec_digit_char(d as int)],
{
    let r: &'static str = if d == 0 {
        "0"
    } else if d == 1 {
        "1"
    } else if d == 2 {
        "2"
    } else if d == 3 {
        "3"
    } else if d == 4 {
        "4"
    } else if d == 5 {
        "5"
    } else if d == 6 {
        "6"
    } else if d == 7 {
        "7"
    } else if d == 8 {
        "8"
    } else {
        "9"
    };
    proof {
        reveal_strlit("0");
        reveal_strlit("1");
        reveal_strlit("2");
        reveal_strlit("3");
        reveal_strlit("4");
        reveal_strlit("5");
        reveal_strlit("6");
        reveal_strlit("7");
        reveal_strlit("8");
        reveal_strlit("9");
        assert(r@ =~= seq![spec_digit_char(d as int)]);
    }
    r
}

/// `n`, written in decimal.
pub fn u64_to_string(n: u64) -> (s: String)
    ensures
        s@ == spec_decimal(n as nat),
    decreases n,
{
    if n < 10 {
        String::from_str(digit_str(n))
    } else {
        let mut s = u64_to_string(n / 10);
        s.append(digit_str(n % 10));
        proof {
            assert(s@ =~= spec_decimal(n as nat));
        }
        s
    }
}

/// The human-relative phrase for `target` seen from `now`: the signed
/// distance, reported in the largest whole unit among days, hours and
/// minutes — suffixed " ago" in the past, prefixed "in " in the future —
/// falling back to "just now" / "now" below a minute.
pub open spec fn spec_duration_phrase(target: Timestamp, now: Timestamp) -> Seq<char> {
    let d = target.seconds - now.seconds;
    if d < 0 {
        let m = -d;
        if m / (SECONDS_PER_DAY as int) > 0 {
            spec_decimal((m / (SECONDS_PER_DAY as int)) as nat) + " days ago"@
        } else if m / (SECONDS_PER_HOUR as int) > 0 {
            spec_decimal((m / (SECONDS_PER_HOUR as int)) as nat) + " hours ago"@
        } else if m / (SECONDS_PER_MINUTE as int) > 0 {
            spec_decimal((m / (SECONDS_PER_MINUTE as int)) as nat) + " minutes ago"@
        } else {
            "just now"@
        }
    } else {
        if d / (SECONDS_PER_DAY as int) > 0 {
            "in "@ + spec_decimal((d / (SECONDS_PER_DAY as int)) as nat) + " days"@
        } else if d / (SECONDS_PER_HOUR as int) > 0 {
            "in "@ + spec_decimal((d / (SECONDS_PER_HOUR as int)) as nat) + " hours"@
        } else if d / (SECONDS_PER_MINUTE as int) > 0 {
            "in "@ + spec_decimal((d / (SECONDS_PER_MINUTE as int)) as nat) + " minutes"@
        } else {
            "now"@
        }
    }
}

/// Renders the human-relative phrase for `target` seen from `now`.
pub fn format_duration_until(target: Timestamp, now: Timestamp) -> (s: String)
    requires
        i64::MIN < target.seconds - now.seconds <= i64::MAX,
    ensures
        s@ == spec_duration_phrase(target, now),
{
    let d: i64 = target.seconds - now.seconds;
    if d < 0 {
        let m: u64 = (-d) as u64;
        let days: u64 = m / (SECONDS_PER_DAY as u64);
        let hours: u64 = m / (SECONDS_PER_HOUR as u64);
        let minutes: u64 = m / (SECONDS_PER_MINUTE as u64);
        if days > 0 {
            let mut s = u64_to_string(days);
            s.append(" days ago");
            s
        } else if hours > 0 {
            let mut s = u64_to_string(hours);
            s.append(" hours ago");
            s
        } else if minutes > 0 {
            let mut s = u64_to_string(minutes);
            s.append(" minutes ago");
            s
        } else {
            String::from_str("just now")
        }
    } else {
        let dd: u64 = d as u64;
        let days: u64 = dd / (SECONDS_PER_DAY as u64);
        let hours: u64 = dd / (SECONDS_PER_HOUR as u64);
        let minutes: u64 = dd / (SECONDS_PER_MINUTE as u64);
        if days > 0 {
            let mut s = String::from_str("in ");
            let digits = u64_to_string(days);
            s.append(digits.as_str());
            s.append(" days");
            s
        } else if hours > 0 {
            let mut s = String::from_str("in ");
            let digits = u64_to_string(hours);
            s.append(digits.as_str());
            s.append(" hours");
            s
        } else if minutes > 0 {
            let mut s = String::from_str("in ");
            let digits = u64_to_string(minutes);
            s.append(digits.as_str());
            s.append(" minutes");
            s
        } else {
            String::from_str("now")
        }
    }
}

/// What trimming yields: the content itself without a trim length or when
/// it already fits, an ellipsis alone for a trim length of zero, and
/// otherwise the first `len` characters followed by an ellipsis.
pub open spec fn spec_trimmed(content: Seq<char>, trim_length: Option<usize>) -> Seq<char> {
    match trim_length {
        Option::None => content,
        Option::Some(len) => if len == 0 {
            "..."@
        } else if content.len() > len {
            content.take(len as int) + "..."@
        } else {
            content
        },
    }
}

/// The string to display for `content` under an optional trim length.
/// The stored content itself is never altered.
pub fn get_trimmed_content(content: &str, trim_length: Option<usize>) -> (r: String)
    ensures
        r@ == spec_trimmed(content@, trim_length),
{
    match trim_length {
        None => String::from_str(content),
        Some(len) => {
            if len == 0 {
                String::from_str("...")
            } else {
                let n = content.unicode_len();
                if n > len {
                    let mut s = String::from_str(content.substring_char(0, len));
                    s.append("...");
                    proof {
                        assert(content@.subrange(0, len as int) =~= content@.take(len as int));
                    }
                    s
                } else {
                    String::from_str(content)
                }
            }
        },
    }
}

} // verus!
