//! The stored form of a reminder store: a JSON object
//!
//! ```text
//! {"reminders":{"<id>":{"id":...,"content":[...],"created_at":{"seconds":...,
//! "offset_seconds":...},"next_review":{...},"review_count":...,"completed":...},
//! ...},"next_id":...}
//! ```
//!
//! Timestamps are stored as epoch seconds together with the recorded
//! local offset, so the local-time meaning of every timestamp survives
//! the round trip unchanged. Content is stored as the sequence of its
//! Unicode code points, so the stored form is a plain function of the
//! value, with no escaping rules in between.

use vstd::prelude::*;
use vstd::string::StrSliceExecFns;
use vstd::string::StringExecFns;
use crate::format::{spec_decimal, u64_to_string};
use crate::store::{Reminder, ReminderStore, StoreView};
use crate::time::Timestamp;

verus! {

/// A possibly signed decimal integer.
pub open spec fn spec_enc_int(n: int) -> Seq<char> {
    if n < 0 {
        "-"@ + spec_decimal((-n) as nat)
    } else {
        spec_decimal(n as nat)
    }
}

/// The code points of `s`, comma-separated.
pub open spec fn spec_enc_cp_list(s: Seq<char>) -> Seq<char>
    decreases s.len(),
{
    if s.len() == 0 {
        Seq::empty()
    } else if s.len() == 1 {
        spec_decimal((s[0] as u32) as nat)
    } else {
        spec_decimal((s[0] as u32) as nat) + ","@ + spec_enc_cp_list(s.drop_first())
    }
}

/// Content as a JSON array of its code points.
pub open spec fn spec_enc_content(s: Seq<char>) -> Seq<char> {
    "["@ + spec_enc_cp_list(s) + "]"@
}

pub open spec fn spec_enc_timestamp(t: Timestamp) -> Seq<char> {
    "{\"seconds\":"@ + spec_enc_int(t.seconds as int) + ",\"offset_seconds\":"@ + spec_enc_int(
        t.offset_seconds as int,
    ) + "}"@
}

/// One record, as the map entry `"<id>":{...}`.
pub open spec fn spec_enc_reminder(r: Reminder) -> Seq<char> {
    "\""@ + spec_decimal(r.id as nat) + "\":{\"id\":"@ + spec_decimal(r.id as nat)
        + ",\"content\":"@ + spec_enc_content(r.content@) + ",\"created_at\":"@
        + spec_enc_timestamp(r.created_at) + ",\"next_review\":"@ + spec_enc_timestamp(
        r.next_review,
    ) + ",\"review_count\":"@ + spec_decimal(r.review_count as nat) + ",\"completed\":"@ + (
    if r.completed {
        "true"@
    } else {
        "false"@
    }) + "}"@
}

/// The trailing fields of one record: everything from `created_at` on.
pub open spec fn spec_enc_rem_tail(x: Reminder) -> Seq<char> {
    ",\"created_at\":"@ + spec_enc_timestamp(x.created_at) + ",\"next_review\":"@
        + spec_enc_timestamp(x.next_review) + ",\"review_count\":"@ + spec_decimal(
        x.review_count as nat,
    ) + ",\"completed\":"@ + (if x.completed {
        "true"@
    } else {
        "false"@
    }) + "}"@
}

/// The records, comma-separated, in stored order.
pub open spec fn spec_enc_reminder_list(s: Seq<Reminder>) -> Seq<char>
    decreases s.len(),
{
    if s.len() == 0 {
        Seq::empty()
    } else if s.len() == 1 {
        spec_enc_reminder(s[0])
    } else {
        spec_enc_reminder(s[0]) + ","@ + spec_enc_reminder_list(s.drop_first())
    }
}

/// The whole stored text of a store.
pub open spec fn spec_enc_store(v: StoreView) -> Seq<char> {
    "{\"reminders\":{"@ + spec_enc_reminder_list(v.reminders) + "},\"next_id\":"@ + spec_decimal(
        v.next_id as nat,
    ) + "}"@
}

proof fn lemma_enc_cp_list_push(s: Seq<char>, c: char)
    ensures
        spec_enc_cp_list(s.push(c)) == if s.len() == 0 {
            spec_decimal((c as u32) as nat)
        } else {
            spec_enc_cp_list(s) + ","@ + spec_decimal((c as u32) as nat)
        },
    decreases s.len(),
{
    let p = s.push(c);
    if s.len() == 0 {
        assert(p.len() == 1);
        assert(p[0] == c);
    } else {
        assert(p.drop_first() =~= s.drop_first().push(c));
        lemma_enc_cp_list_push(s.drop_first(), c);
        assert(p[0] == s[0]);
        if s.len() == 1 {
            assert(s.drop_first().len() == 0);
        } else {
            let a = spec_decimal((s[0] as u32) as nat);
            let b = spec_enc_cp_list(s.drop_first());
            let d = spec_decimal((c as u32) as nat);
            assert(a + ","@ + (b + ","@ + d) =~= (a + ","@ + b) + ","@ + d);
        }
    }
}

proof fn lemma_enc_reminder_list_push(s: Seq<Reminder>, r: Reminder)
    ensures
        spec_enc_reminder_list(s.push(r)) == if s.len() == 0 {
            spec_enc_reminder(r)
        } else {
            spec_enc_reminder_list(s) + ","@ + spec_enc_reminder(r)
        },
    decreases s.len(),
{
    let p = s.push(r);
    if s.len() == 0 {
        assert(p.len() == 1);
        assert(p[0] == r);
    } else {
        assert(p.drop_first() =~= s.drop_first().push(r));
        lemma_enc_reminder_list_push(s.drop_first(), r);
        assert(p[0] == s[0]);
        if s.len() == 1 {
            assert(s.drop_first().len() == 0);
        } else {
            let a = spec_enc_reminder(s[0]);
            let b = spec_enc_reminder_list(s.drop_first());
            let d = spec_enc_reminder(r);
            assert(a + ","@ + (b + ","@ + d) =~= (a + ","@ + b) + ","@ + d);
        }
    }
}

/// `n` in decimal with a sign when negative.
fn i64_to_string(n: i64) -> (s: String)
    ensures
        s@ == spec_enc_int(n as int),
{
    if n >= 0 {
        u64_to_string(n as u64)
    } else {
        let m: u64 = ((-(n + 1)) as u64) + 1;
        proof {
            assert(m as nat == (-(n as int)) as nat);
        }
        let mut s = String::from_str("-");
        let digits = u64_to_string(m);
        s.append(digits.as_str());
        s
    }
}

fn append_timestamp(s: &mut String, t: Timestamp)
    ensures
        final(s)@ == old(s)@ + spec_enc_timestamp(t),
{
    s.append("{\"seconds\":");
    let secs = i64_to_string(t.seconds);
    s.append(secs.as_str());
    s.append(",\"offset_seconds\":");
    let offs = i64_to_string(t.offset_seconds as i64);
    s.append(offs.as_str());
    s.append("}");
    proof {
        assert(s@ =~= old(s)@ + spec_enc_timestamp(t));
    }
}

fn append_content(s: &mut String, content: &str)
    ensures
        final(s)@ == old(s)@ + spec_enc_content(content@),
{
    s.append("[");
    let n = content.unicode_len();
    let mut k: usize = 0;
    while k < n
        invariant
            n as nat == content@.len(),
            k <= n,
            s@ == old(s)@ + "["@ + spec_enc_cp_list(content@.take(k as int)),
        decreases n - k,
    {
        if k > 0 {
            s.append(",");
        }
        let c = content.get_char(k);
        let digits = u64_to_string(c as u64);
        s.append(digits.as_str());
        proof {
            let prev = content@.take(k as int);
            lemma_enc_cp_list_push(prev, c);
            assert(content@.take(k as int + 1) =~= prev.push(content@[k as int]));
            assert((c as u64) as nat == (content@[k as int] as u32) as nat);
            assert(s@ =~= old(s)@ + "["@ + spec_enc_cp_list(content@.take(k as int + 1)));
        }
        k = k + 1;
    }
    s.append("]");
    proof {
        assert(content@.take(n as int) =~= content@);
        assert(s@ =~= old(s)@ + spec_enc_content(content@));
    }
}

fn append_reminder(s: &mut String, r: &Reminder)
    ensures
        final(s)@ == old(s)@ + spec_enc_reminder(*r),
{
    s.append("\"");
    let id_digits = u64_to_string(r.id as u64);
    s.append(id_digits.as_str());
    s.append("\":{\"id\":");
    s.append(id_digits.as_str());
    s.append(",\"content\":");
    append_content(s, r.content.as_str());
    s.append(",\"created_at\":");
    append_timestamp(s, r.created_at);
    s.append(",\"next_review\":");
    append_timestamp(s, r.next_review);
    s.append(",\"review_count\":");
    let count_digits = u64_to_string(r.review_count as u64);
    s.append(count_digits.as_str());
    s.append(",\"completed\":");
    if r.completed {
        s.append("true");
    } else {
        s.append("false");
    }
    s.append("}");
    proof {
        assert(s@ =~= old(s)@ + spec_enc_reminder(*r));
    }
}

impl ReminderStore {
    /// Serializes the store to its stored text.
    pub fn to_json(&self) -> (s: String)
        ensures
            s@ == spec_enc_store(self@),
    {
        let mut s = String::from_str("{\"reminders\":{");
        let n = self.reminders.len();
        let mut k: usize = 0;
        while k < n
            invariant
                n == self.reminders@.len(),
                k <= n,
                s@ == "{\"reminders\":{"@ + spec_enc_reminder_list(self.reminders@.take(k as int)),
            decreases n - k,
        {
            if k > 0 {
                s.append(",");
            }
            append_reminder(&mut s, &self.reminders[k]);
            proof {
                let prev = self.reminders@.take(k as int);
                lemma_enc_reminder_list_push(prev, self.reminders@[k as int]);
                assert(self.reminders@.take(k as int + 1) =~= prev.push(
                    self.reminders@[k as int],
                ));
                assert(s@ =~= "{\"reminders\":{"@ + spec_enc_reminder_list(
                    self.reminders@.take(k as int + 1),
                ));
            }
            k = k + 1;
        }
        s.append("},\"next_id\":");
        let digits = u64_to_string(self.next_id as u64);
        s.append(digits.as_str());
        s.append("}");
        proof {
            assert(self.reminders@.take(n as int) =~= self.reminders@);
            assert(s@ =~= spec_enc_store(self@));
        }
        s
    }
}

/// Relies on `str::chars`: the characters of the string, in order.
#[verifier::external_body]
fn str_to_chars(s: &str) -> (v: Vec<char>)
    ensures
        v@ == s@,
{
    s.chars().collect()
}

/// Relies on `String`'s `FromIterator<char>`: collecting characters in
/// order yields the string of exactly those characters.
#[verifier::external_body]
fn chars_to_string(v: &Vec<char>) -> (s: String)
    ensures
        s@ == v@,
{
    v.iter().collect()
}

/// Relies on `char::from_u32`: `Some` exactly for valid Unicode scalar
/// values — code points below 0x110000 outside the surrogate range — and
/// the returned character has code point `n`.
#[verifier::external_body]
fn char_from_code_point(n: u32) -> (r: Option<char>)
    ensures
        r is Some <==> (n < 0xD800 || (0xE000 <= n && n < 0x110000)),
        r matches Some(c) ==> c as u32 == n,
{
    char::from_u32(n)
}

/// The value of a decimal digit character.
pub open spec fn digit_val(c: char) -> nat {
    ((c as u32) - 48) as nat
}

/// The number a string of decimal digits denotes.
pub open spec fn digits_val(s: Seq<char>) -> nat
    decreases s.len(),
{
    if s.len() == 0 {
        0
    } else {
        digits_val(s.drop_last()) * 10 + digit_val(s.last())
    }
}

proof fn lemma_digits_val_decimal(n: nat)
    ensures
        digits_val(spec_decimal(n)) == n,
    decreases n,
{
    let d = spec_decimal(n);
    if n < 10 {
        assert(d == seq![crate::format::spec_digit_char(n as int)]);
        assert(d.drop_last() =~= Seq::<char>::empty());
        assert(digits_val(Seq::<char>::empty()) == 0);
        assert(d.last() == crate::format::spec_digit_char(n as int));
        assert(digit_val(crate::format::spec_digit_char(n as int)) == n);
    } else {
        let dp = spec_decimal(n / 10);
        assert(d == dp.push(crate::format::spec_digit_char((n % 10) as int)));
        assert(d.drop_last() =~= dp);
        assert(d.last() == crate::format::spec_digit_char((n % 10) as int));
        lemma_digits_val_decimal(n / 10);
        assert(digit_val(crate::format::spec_digit_char((n % 10) as int)) == n % 10);
        assert(n == (n / 10) * 10 + n % 10);
    }
}

proof fn lemma_digits_val_prefix_le(s: Seq<char>, k: int)
    requires
        0 <= k <= s.len(),
    ensures
        digits_val(s.take(k)) <= digits_val(s),
    decreases s.len() - k,
{
    if k < s.len() {
        assert(s.take(k + 1).drop_last() =~= s.take(k));
        assert(s.take(k + 1).last() == s[k]);
        assert(digits_val(s.take(k + 1)) == digits_val(s.take(k)) * 10 + digit_val(s[k]));
        lemma_digits_val_prefix_le(s, k + 1);
    } else {
        assert(s.take(k) =~= s);
    }
}

/// Splitting text at a known prefix: if the tail at `pos` is `a + rest`,
/// then `a` sits at `pos` and `rest` follows it.
proof fn lemma_skip_concat(vs: Seq<char>, pos: int, a: Seq<char>, rest: Seq<char>)
    requires
        0 <= pos <= vs.len(),
        vs.skip(pos) == a + rest,
    ensures
        pos + a.len() + rest.len() == vs.len(),
        vs.subrange(pos, pos + a.len()) == a,
        vs.skip(pos + a.len()) == rest,
{
    assert(vs.skip(pos).len() == vs.len() - pos);
    assert((a + rest).len() == a.len() + rest.len());
    assert(vs.subrange(pos, pos + a.len()) =~= a) by {
        assert forall|i: int| 0 <= i < a.len() implies vs.subrange(pos, pos + a.len())[i] == a[i] by {
            assert(vs.skip(pos)[i] == vs[pos + i]);
            assert((a + rest)[i] == a[i]);
            assert(vs.subrange(pos, pos + a.len())[i] == vs[pos + i]);
        }
    }
    assert(vs.skip(pos + a.len()) =~= rest) by {
        assert forall|i: int| 0 <= i < rest.len() implies vs.skip(pos + a.len())[i] == rest[i] by {
            assert(vs.skip(pos + a.len())[i] == vs[pos + a.len() + i]);
            assert(vs.skip(pos)[a.len() + i] == vs[pos + a.len() + i]);
            assert((a + rest)[a.len() + i] == rest[i]);
        }
    }
}

fn expect_lit(v: &Vec<char>, pos: usize, lit: &str) -> (r: Option<usize>)
    ensures
        r matches Some(p) ==> pos <= p <= v@.len() && p == pos + lit@.len() && v@.subrange(
            pos as int,
            pos as int + lit@.len() as int,
        ) == lit@,
        (pos + lit@.len() <= v@.len() && v@.subrange(
            pos as int,
            pos as int + lit@.len() as int,
        ) == lit@) ==> r is Some,
{
    let n = lit.unicode_len();
    if n > v.len() || pos > v.len() - n {
        return None;
    }
    let mut i: usize = 0;
    while i < n
        invariant
            i <= n,
            n as nat == lit@.len(),
            pos + n <= v@.len(),
            v@.len() <= usize::MAX,
            forall|m: int| 0 <= m < i ==> v@[pos + m] == lit@[m],
        decreases n - i,
    {
        if v[pos + i] != lit.get_char(i) {
            proof {
                if v@.subrange(pos as int, pos as int + lit@.len() as int) == lit@ {
                    assert(v@.subrange(pos as int, pos as int + lit@.len() as int)[i as int]
                        == v@[pos + i]);
                }
            }
            return None;
        }
        i = i + 1;
    }
    proof {
        assert(v@.subrange(pos as int, pos as int + lit@.len() as int) =~= lit@);
    }
    Some(pos + n)
}

fn parse_u64(v: &Vec<char>, pos: usize) -> (r: Option<(u64, usize)>)
    requires
        pos <= v@.len(),
    ensures
        r matches Some(x) ==> pos < x.1 <= v@.len(),
        forall|n: nat, rest: Seq<char>|
            #![trigger spec_decimal(n) + rest]
            (v@.skip(pos as int) == spec_decimal(n) + rest && n <= 9_223_372_036_854_775_808 && (
            rest.len() == 0 || !is_digit(rest[0]))) ==> r == Some(
                (n as u64, (pos + spec_decimal(n).len()) as usize),
            ),
{
    let len = v.len();
    if pos >= len {
        proof {
            assert forall|n: nat, rest: Seq<char>|
                (v@.skip(pos as int) == spec_decimal(n) + rest && n
                    <= 9_223_372_036_854_775_808 && (rest.len() == 0 || !is_digit(
                    rest[0],
                ))) implies false by {
                lemma_decimal_digits(n);
                assert(v@.skip(pos as int).len() == 0);
            }
        }
        return None;
    }
    let c0u: u32 = v[pos] as u32;
    if !(48 <= c0u && c0u <= 57) {
        proof {
            assert forall|n: nat, rest: Seq<char>|
                (v@.skip(pos as int) == spec_decimal(n) + rest && n
                    <= 9_223_372_036_854_775_808 && (rest.len() == 0 || !is_digit(
                    rest[0],
                ))) implies false by {
                lemma_decimal_digits(n);
                assert(v@.skip(pos as int)[0] == v@[pos as int]);
                assert((spec_decimal(n) + rest)[0] == spec_decimal(n)[0]);
                assert(is_digit(spec_decimal(n)[0]));
            }
        }
        return None;
    }
    let mut acc: u64 = 0;
    let mut p: usize = pos;
    proof {
        assert(v@.subrange(pos as int, pos as int) =~= Seq::<char>::empty());
        assert(digits_val(Seq::<char>::empty()) == 0);
    }
    while p < len && 48 <= (v[p] as u32) && (v[p] as u32) <= 57
        invariant
            pos <= p <= len,
            len == v@.len(),
            is_digit(v@[pos as int]),
            forall|m: int| pos <= m < p ==> is_digit(#[trigger] v@[m]),
            acc as nat == digits_val(v@.subrange(pos as int, p as int)),
        decreases len - p,
    {
        if acc > (u64::MAX - 9) / 10 {
            proof {
                assert forall|n: nat, rest: Seq<char>|
                    (v@.skip(pos as int) == spec_decimal(n) + rest && n
                        <= 9_223_372_036_854_775_808 && (rest.len() == 0 || !is_digit(
                        rest[0],
                    ))) implies false by {
                    lemma_decimal_digits(n);
                    lemma_skip_concat(v@, pos as int, spec_decimal(n), rest);
                    let dec = spec_decimal(n);
                    let dlen = dec.len() as int;
                    if p as int >= pos + dlen {
                        if p as int > pos + dlen {
                            assert(is_digit(v@[pos + dlen]));
                            assert(v@.skip(pos as int)[dlen] == v@[pos + dlen]);
                            assert((dec + rest)[dlen] == rest[0]);
                        } else {
                            assert(is_digit(v@[p as int]));
                            assert(v@.skip(pos as int)[dlen] == v@[pos + dlen]);
                            assert((dec + rest)[dlen] == rest[0]);
                        }
                        assert(false);
                    }
                    assert(v@.subrange(pos as int, p as int) =~= dec.take(p - pos)) by {
                        assert forall|i: int|
                            0 <= i < p - pos implies v@.subrange(pos as int, p as int)[i] == dec.take(
                            p - pos,
                        )[i] by {
                            assert(v@.skip(pos as int)[i] == v@[pos + i]);
                            assert((dec + rest)[i] == dec[i]);
                            assert(v@.subrange(pos as int, p as int)[i] == v@[pos + i]);
                        }
                    }
                    let k = p - pos;
                    assert(acc as nat == digits_val(dec.take(k)));
                    assert(dec.take(k + 1).drop_last() =~= dec.take(k));
                    assert(dec.take(k + 1).last() == dec[k]);
                    assert(digits_val(dec.take(k + 1)) == digits_val(dec.take(k)) * 10 + digit_val(
                        dec[k],
                    ));
                    lemma_digits_val_prefix_le(dec, k + 1);
                    lemma_digits_val_decimal(n);
                    assert(digits_val(dec) == n);
                    assert(acc as nat * 10 <= n);
                    assert(acc <= 922_337_203_685_477_580);
                    assert(false);
                }
            }
            return None;
        }
        let d: u32 = (v[p] as u32) - 48;
        acc = acc * 10 + (d as u64);
        proof {
            assert(v@.subrange(pos as int, p as int + 1).drop_last() =~= v@.subrange(
                pos as int,
                p as int,
            ));
            assert(v@.subrange(pos as int, p as int + 1).last() == v@[p as int]);
        }
        p = p + 1;
    }
    proof {
        if p == pos {
            assert(is_digit(v@[pos as int]));
            assert(false);
        }
        assert forall|n: nat, rest: Seq<char>|
            (v@.skip(pos as int) == spec_decimal(n) + rest && n <= 9_223_372_036_854_775_808
                && (rest.len() == 0 || !is_digit(rest[0]))) implies Some((acc, p)) == Some::<
            (u64, usize),
        >((n as u64, (pos + spec_decimal(n).len()) as usize)) by {
            lemma_decimal_digits(n);
            lemma_skip_concat(v@, pos as int, spec_decimal(n), rest);
            let dec = spec_decimal(n);
            let dlen = dec.len() as int;
            if p as int > pos + dlen {
                assert(is_digit(v@[pos + dlen]));
                assert(v@.skip(pos as int)[dlen] == v@[pos + dlen]);
                assert((dec + rest)[dlen] == rest[0]);
                assert(false);
            }
            if (p as int) < pos + dlen {
                assert(v@.skip(pos as int)[p - pos] == v@[p as int]);
                assert((dec + rest)[p - pos] == dec[p - pos]);
                assert(is_digit(dec[p - pos]));
                assert(is_digit(v@[p as int]));
                assert(p < len);
                assert(false);
            }
            assert(p as int == pos + dlen);
            assert(v@.subrange(pos as int, p as int) == dec);
            assert(acc as nat == digits_val(dec));
            lemma_digits_val_decimal(n);
            assert(acc as nat == n);
        }
    }
    Some((acc, p))
}

fn parse_i64(v: &Vec<char>, pos: usize) -> (r: Option<(i64, usize)>)
    requires
        pos <= v@.len(),
    ensures
        r matches Some(x) ==> pos < x.1 <= v@.len(),
        forall|n: i64, rest: Seq<char>|
            #![trigger spec_enc_int(n as int) + rest]
            (v@.skip(pos as int) == spec_enc_int(n as int) + rest && (rest.len() == 0
                || !is_digit(rest[0]))) ==> r == Some(
                (n, (pos + spec_enc_int(n as int).len()) as usize),
            ),
{
    let neg = pos < v.len() && v[pos] == '-';
    let start = if neg {
        pos + 1
    } else {
        pos
    };
    let inner = parse_u64(v, start);
    let r: Option<(i64, usize)> = match inner {
        Some((m, p)) => {
            if neg {
                if m <= 9_223_372_036_854_775_807u64 {
                    Some((-(m as i64), p))
                } else if m == 9_223_372_036_854_775_808u64 {
                    Some((i64::MIN, p))
                } else {
                    None
                }
            } else {
                if m <= 9_223_372_036_854_775_807u64 {
                    Some((m as i64, p))
                } else {
                    None
                }
            }
        },
        None => None,
    };
    proof {
        reveal_strlit("-");
        assert forall|n: i64, rest: Seq<char>|
            (v@.skip(pos as int) == spec_enc_int(n as int) + rest && (rest.len() == 0
                || !is_digit(rest[0]))) implies r == Some::<(i64, usize)>(
            (n, (pos + spec_enc_int(n as int).len()) as usize),
        ) by {
            if n >= 0 {
                let dec = spec_decimal(n as nat);
                lemma_decimal_digits(n as nat);
                assert(v@.skip(pos as int)[0] == v@[pos as int]);
                assert((dec + rest)[0] == dec[0]);
                assert(is_digit(v@[pos as int]));
                assert(!('-' as u32 == 48 || ('-' as u32 >= 48 && '-' as u32 <= 57)));
                assert(!neg);
                assert(dec + rest == spec_decimal(n as nat) + rest);
                assert((n as nat) <= 9_223_372_036_854_775_808);
                assert(inner == Some(((n as nat) as u64, (pos + dec.len()) as usize)));
                assert((n as nat) as u64 == n as u64);
            } else {
                let mn = (-(n as int)) as nat;
                let dec = spec_decimal(mn);
                assert(spec_enc_int(n as int) == "-"@ + dec);
                assert(("-"@ + dec) + rest =~= "-"@ + (dec + rest));
                lemma_skip_concat(v@, pos as int, "-"@, dec + rest);
                assert(v@.subrange(pos as int, pos as int + 1)[0] == v@[pos as int]);
                assert(v@[pos as int] == '-');
                assert(pos < v@.len());
                assert(neg);
                assert(v@.skip(pos as int + 1) == dec + rest);
                assert(mn <= 9_223_372_036_854_775_808);
                assert(dec + rest == spec_decimal(mn) + rest);
                assert(inner == Some((mn as u64, (pos + 1 + dec.len()) as usize)));
                let m = mn as u64;
                if m <= 9_223_372_036_854_775_807u64 {
                    assert(-(m as i64) == n);
                } else {
                    assert(m == 9_223_372_036_854_775_808u64);
                    assert(n == i64::MIN);
                }
                assert(spec_enc_int(n as int).len() == 1 + dec.len());
            }
        }
    }
    r
}

/// Where the first code point of a nonempty encoded list sits, and what
/// follows it.
proof fn lemma_cp_head(vs: Seq<char>, pos: int, s: Seq<char>, rest: Seq<char>)
    requires
        0 <= pos <= vs.len(),
        s.len() > 0,
        vs.skip(pos) == spec_enc_cp_list(s) + ("]"@ + rest),
    ensures
        ({
            let d0 = spec_decimal((s[0] as u32) as nat);
            let tail: Seq<char> = if s.len() == 1 {
                "]"@ + rest
            } else {
                ","@ + (spec_enc_cp_list(s.drop_first()) + ("]"@ + rest))
            };
            &&& vs.skip(pos) == d0 + tail
            &&& tail.len() > 0
            &&& !is_digit(tail[0])
            &&& tail[0] == (if s.len() == 1 {
                ']'
            } else {
                ','
            })
            &&& (s[0] as u32) as nat <= 9_223_372_036_854_775_808
            &&& pos + d0.len() <= vs.len()
            &&& vs.skip(pos + d0.len()) == tail
            &&& (s.len() > 1 ==> vs.skip(pos + d0.len() + 1) == spec_enc_cp_list(s.drop_first())
                + ("]"@ + rest))
            &&& (s.len() > 1 ==> spec_enc_cp_list(s).len() == d0.len() + 1 + spec_enc_cp_list(
                s.drop_first(),
            ).len())
            &&& (s.len() == 1 ==> spec_enc_cp_list(s).len() == d0.len())
            &&& (s.len() == 1 ==> vs.skip(pos + d0.len() + 1) == rest)
        }),
{
    reveal_strlit("]");
    reveal_strlit(",");
    let d0 = spec_decimal((s[0] as u32) as nat);
    if s.len() == 1 {
        assert(spec_enc_cp_list(s) == d0);
        lemma_skip_concat(vs, pos, d0, "]"@ + rest);
        assert(("]"@ + rest)[0] == ']');
        lemma_skip_concat(vs, pos + d0.len(), "]"@, rest);
    } else {
        let t2 = spec_enc_cp_list(s.drop_first());
        assert(spec_enc_cp_list(s) == d0 + ","@ + t2);
        assert((d0 + ","@ + t2) + ("]"@ + rest) =~= d0 + (","@ + (t2 + ("]"@ + rest))));
        lemma_skip_concat(vs, pos, d0, ","@ + (t2 + ("]"@ + rest)));
        lemma_skip_concat(vs, pos + d0.len(), ","@, t2 + ("]"@ + rest));
        assert((","@ + (t2 + ("]"@ + rest)))[0] == ',');
    }
}

/// Every character's code point is a Unicode scalar value.
proof fn lemma_char_scalar(c: char)
    ensures
        c as u32 <= 0x10FFFF,
        !(0xD800 <= c as u32 && c as u32 <= 0xDFFF),
{
}

#[verifier::rlimit(100)]
fn parse_cp_items(v: &Vec<char>, pos: usize, chars: &mut Vec<char>) -> (r: Option<usize>)
    requires
        pos <= v@.len(),
    ensures
        r matches Some(p) ==> pos < p <= v@.len(),
        forall|s: Seq<char>, rest: Seq<char>|
            #![trigger spec_enc_cp_list(s) + rest]
            (s.len() > 0 && rest.len() > 0 && rest[0] == ']' && v@.skip(pos as int)
                == spec_enc_cp_list(s) + rest) ==> (r matches Some(p) && final(chars)@ == old(
                chars,
            )@ + s && p as int == pos + spec_enc_cp_list(s).len() + 1),
    decreases v@.len() - pos,
{
    let _len: usize = v.len();
    let (cp64, p2) = match parse_u64(v, pos) {
        Some(x) => x,
        None => {
            proof {
                assert forall|s: Seq<char>, rest: Seq<char>|
                    (s.len() > 0 && rest.len() > 0 && rest[0] == ']' && v@.skip(pos as int)
                        == spec_enc_cp_list(s) + rest) implies false by {
                    reveal_strlit("]");
                    assert("]"@ + rest.drop_first() =~= rest);
                    assert(v@.skip(pos as int) == spec_enc_cp_list(s) + ("]"@ + rest.drop_first()));
                    lemma_cp_head(v@, pos as int, s, rest.drop_first());
                    let d0 = spec_decimal((s[0] as u32) as nat);
                    let tail: Seq<char> = if s.len() == 1 {
                        "]"@ + rest.drop_first()
                    } else {
                        ","@ + (spec_enc_cp_list(s.drop_first()) + ("]"@ + rest.drop_first()))
                    };
                    assert(v@.skip(pos as int) == d0 + tail);
                    assert(tail.len() > 0 && !is_digit(tail[0]));
                }
            }
            return None;
        },
    };
    if cp64 > 0x10FFFFu64 {
        proof {
            assert forall|s: Seq<char>, rest: Seq<char>|
                (s.len() > 0 && rest.len() > 0 && rest[0] == ']' && v@.skip(pos as int)
                    == spec_enc_cp_list(s) + rest) implies false by {
                reveal_strlit("]");
                assert("]"@ + rest.drop_first() =~= rest);
                assert(v@.skip(pos as int) == spec_enc_cp_list(s) + ("]"@ + rest.drop_first()));
                lemma_cp_head(v@, pos as int, s, rest.drop_first());
                let d0 = spec_decimal((s[0] as u32) as nat);
                let tail: Seq<char> = if s.len() == 1 {
                    "]"@ + rest.drop_first()
                } else {
                    ","@ + (spec_enc_cp_list(s.drop_first()) + ("]"@ + rest.drop_first()))
                };
                assert(v@.skip(pos as int) == d0 + tail);
                assert(tail.len() > 0 && !is_digit(tail[0]));
                assert(cp64 == ((s[0] as u32) as nat) as u64);
                lemma_char_scalar(s[0]);
            }
        }
        return None;
    }
    let c = match char_from_code_point(cp64 as u32) {
        Some(c) => c,
        None => {
            proof {
                assert forall|s: Seq<char>, rest: Seq<char>|
                    (s.len() > 0 && rest.len() > 0 && rest[0] == ']' && v@.skip(pos as int)
                        == spec_enc_cp_list(s) + rest) implies false by {
                    reveal_strlit("]");
                    assert("]"@ + rest.drop_first() =~= rest);
                    assert(v@.skip(pos as int) == spec_enc_cp_list(s) + ("]"@ + rest.drop_first()));
                    lemma_cp_head(v@, pos as int, s, rest.drop_first());
                    let d0 = spec_decimal((s[0] as u32) as nat);
                    let tail: Seq<char> = if s.len() == 1 {
                        "]"@ + rest.drop_first()
                    } else {
                        ","@ + (spec_enc_cp_list(s.drop_first()) + ("]"@ + rest.drop_first()))
                    };
                    assert(v@.skip(pos as int) == d0 + tail);
                    assert(tail.len() > 0 && !is_digit(tail[0]));
                    assert(cp64 == ((s[0] as u32) as nat) as u64);
                    assert(cp64 as u32 == s[0] as u32);
                    lemma_char_scalar(s[0]);
                }
            }
            return None;
        },
    };
    chars.push(c);
    if p2 < v.len() && v[p2] == ',' {
        let ghost chars_before = chars@;
        let r2 = parse_cp_items(v, p2 + 1, chars);
        proof {
            assert forall|s: Seq<char>, rest: Seq<char>|
                (s.len() > 0 && rest.len() > 0 && rest[0] == ']' && v@.skip(pos as int)
                    == spec_enc_cp_list(s) + rest) implies (r2 matches Some(p) && chars@ == old(
                chars,
            )@ + s && p as int == pos + spec_enc_cp_list(s).len() + 1) by {
                reveal_strlit("]");
                reveal_strlit(",");
                assert("]"@ + rest.drop_first() =~= rest);
                assert(v@.skip(pos as int) == spec_enc_cp_list(s) + ("]"@ + rest.drop_first()));
                lemma_cp_head(v@, pos as int, s, rest.drop_first());
                let d0 = spec_decimal((s[0] as u32) as nat);
                let tail: Seq<char> = if s.len() == 1 {
                    "]"@ + rest.drop_first()
                } else {
                    ","@ + (spec_enc_cp_list(s.drop_first()) + ("]"@ + rest.drop_first()))
                };
                assert(v@.skip(pos as int) == d0 + tail);
                assert(tail.len() > 0 && !is_digit(tail[0]));
                assert(cp64 == ((s[0] as u32) as nat) as u64);
                assert(c as u32 == s[0] as u32);
                lemma_char_code_point_injective(c, s[0]);
                assert(p2 as int == pos + d0.len());
                if s.len() == 1 {
                    assert(v@[p2 as int] == v@.skip(pos as int)[d0.len() as int]);
                    assert(v@[p2 as int] == ']');
                    assert(false);
                }
                let s2 = s.drop_first();
                assert(v@.skip(p2 as int + 1) == spec_enc_cp_list(s2) + ("]"@
                    + rest.drop_first()));
                assert(v@.skip(p2 as int + 1) == spec_enc_cp_list(s2) + rest);
                assert(s2.len() > 0);
                assert(r2 matches Some(p) && chars@ == chars_before + s2 && p as int == p2 + 1
                    + spec_enc_cp_list(s2).len() + 1);
                assert(chars_before == old(chars)@.push(c));
                assert(old(chars)@.push(s[0]) + s2 =~= old(chars)@ + s);
            }
        }
        r2
    } else if p2 < v.len() && v[p2] == ']' {
        proof {
            assert forall|s: Seq<char>, rest: Seq<char>|
                (s.len() > 0 && rest.len() > 0 && rest[0] == ']' && v@.skip(pos as int)
                    == spec_enc_cp_list(s) + rest) implies (chars@ == old(chars)@ + s && p2 + 1
                == pos + spec_enc_cp_list(s).len() + 1) by {
                reveal_strlit("]");
                reveal_strlit(",");
                assert("]"@ + rest.drop_first() =~= rest);
                assert(v@.skip(pos as int) == spec_enc_cp_list(s) + ("]"@ + rest.drop_first()));
                lemma_cp_head(v@, pos as int, s, rest.drop_first());
                let d0 = spec_decimal((s[0] as u32) as nat);
                let tail: Seq<char> = if s.len() == 1 {
                    "]"@ + rest.drop_first()
                } else {
                    ","@ + (spec_enc_cp_list(s.drop_first()) + ("]"@ + rest.drop_first()))
                };
                assert(v@.skip(pos as int) == d0 + tail);
                assert(cp64 == ((s[0] as u32) as nat) as u64);
                assert(c as u32 == s[0] as u32);
                lemma_char_code_point_injective(c, s[0]);
                assert(p2 as int == pos + d0.len());
                if s.len() > 1 {
                    assert(v@[p2 as int] == v@.skip(pos as int)[d0.len() as int]);
                    assert(v@[p2 as int] == ',');
                    assert(false);
                }
                assert(old(chars)@.push(s[0]) =~= old(chars)@ + s);
            }
        }
        Some(p2 + 1)
    } else {
        proof {
            assert forall|s: Seq<char>, rest: Seq<char>|
                (s.len() > 0 && rest.len() > 0 && rest[0] == ']' && v@.skip(pos as int)
                    == spec_enc_cp_list(s) + rest) implies false by {
                reveal_strlit("]");
                reveal_strlit(",");
                assert("]"@ + rest.drop_first() =~= rest);
                assert(v@.skip(pos as int) == spec_enc_cp_list(s) + ("]"@ + rest.drop_first()));
                lemma_cp_head(v@, pos as int, s, rest.drop_first());
                let d0 = spec_decimal((s[0] as u32) as nat);
                let tail: Seq<char> = if s.len() == 1 {
                    "]"@ + rest.drop_first()
                } else {
                    ","@ + (spec_enc_cp_list(s.drop_first()) + ("]"@ + rest.drop_first()))
                };
                assert(v@.skip(pos as int) == d0 + tail);
                assert(cp64 == ((s[0] as u32) as nat) as u64);
                assert(p2 as int == pos + d0.len());
                assert(v@.skip(pos as int + d0.len() as int) == tail);
                assert(v@[p2 as int] == v@.skip(pos as int)[d0.len() as int]);
                assert(v@[p2 as int] == ']' || v@[p2 as int] == ',');
                assert(p2 < v@.len());
            }
        }
        None
    }
}

#[verifier::rlimit(100)]
fn parse_content(v: &Vec<char>, pos: usize) -> (r: Option<(String, usize)>)
    requires
        pos <= v@.len(),
    ensures
        r matches Some(x) ==> pos < x.1 <= v@.len(),
        forall|s: Seq<char>, rest: Seq<char>|
            #![trigger spec_enc_content(s) + rest]
            v@.skip(pos as int) == spec_enc_content(s) + rest ==> (r matches Some(x) && x.0@ == s
                && x.1 as int == pos + spec_enc_content(s).len()),
{
    let _len: usize = v.len();
    proof {
        reveal_strlit("[");
        reveal_strlit("]");
    }
    if pos >= v.len() || v[pos] != '[' {
        proof {
            assert forall|s: Seq<char>, rest: Seq<char>|
                v@.skip(pos as int) == spec_enc_content(s) + rest implies false by {
                reveal_strlit("[");
                assert(spec_enc_content(s) + rest =~= "["@ + (spec_enc_cp_list(s) + ("]"@
                    + rest)));
                lemma_skip_concat(v@, pos as int, "["@, spec_enc_cp_list(s) + ("]"@ + rest));
                assert(v@.subrange(pos as int, pos as int + 1)[0] == v@[pos as int]);
            }
        }
        return None;
    }
    let mut chars: Vec<char> = Vec::new();
    if pos + 1 < v.len() && v[pos + 1] == ']' {
        let r = Some((chars_to_string(&chars), pos + 2));
        proof {
            assert forall|s: Seq<char>, rest: Seq<char>|
                v@.skip(pos as int) == spec_enc_content(s) + rest implies (s.len() == 0 && pos + 2
                == pos + spec_enc_content(s).len()) by {
                reveal_strlit("[");
                reveal_strlit("]");
                assert(spec_enc_content(s) + rest =~= "["@ + (spec_enc_cp_list(s) + ("]"@
                    + rest)));
                lemma_skip_concat(v@, pos as int, "["@, spec_enc_cp_list(s) + ("]"@ + rest));
                if s.len() > 0 {
                    lemma_cp_head(v@, pos as int + 1, s, rest);
                    let d0 = spec_decimal((s[0] as u32) as nat);
                    lemma_decimal_digits((s[0] as u32) as nat);
                    assert(v@[pos as int + 1] == v@.skip(pos as int + 1)[0]);
                    assert(v@[pos as int + 1] == d0[0]);
                    assert(is_digit(d0[0]));
                    assert(false);
                }
                assert(spec_enc_cp_list(s).len() == 0);
            }
        }
        return r;
    }
    match parse_cp_items(v, pos + 1, &mut chars) {
        Some(p) => {
            let r = Some((chars_to_string(&chars), p));
            proof {
                assert forall|s: Seq<char>, rest: Seq<char>|
                    v@.skip(pos as int) == spec_enc_content(s) + rest implies (chars@ == s
                    && p as int == pos + spec_enc_content(s).len()) by {
                    reveal_strlit("[");
                    reveal_strlit("]");
                    assert(spec_enc_content(s) + rest =~= "["@ + (spec_enc_cp_list(s) + ("]"@
                        + rest)));
                    lemma_skip_concat(v@, pos as int, "["@, spec_enc_cp_list(s) + ("]"@ + rest));
                    if s.len() == 0 {
                        assert(v@.skip(pos as int + 1) == Seq::<char>::empty() + ("]"@ + rest));
                        assert(Seq::<char>::empty() + ("]"@ + rest) =~= "]"@ + rest);
                        assert(v@[pos as int + 1] == v@.skip(pos as int + 1)[0]);
                        assert(v@[pos as int + 1] == ']');
                        assert(pos + 1 < v@.len());
                        assert(false);
                    }
                    assert(s.len() > 0);
                    assert(("]"@ + rest).len() > 0 && ("]"@ + rest)[0] == ']');
                    assert(v@.skip(pos as int + 1) == spec_enc_cp_list(s) + ("]"@ + rest));
                    assert(chars@ == Seq::<char>::empty() + s);
                    assert(Seq::<char>::empty() + s =~= s);
                    assert(spec_enc_content(s).len() == 1 + spec_enc_cp_list(s).len() + 1);
                }
            }
            r
        },
        None => {
            proof {
                assert forall|s: Seq<char>, rest: Seq<char>|
                    v@.skip(pos as int) == spec_enc_content(s) + rest implies false by {
                    reveal_strlit("[");
                    reveal_strlit("]");
                    assert(spec_enc_content(s) + rest =~= "["@ + (spec_enc_cp_list(s) + ("]"@
                        + rest)));
                    lemma_skip_concat(v@, pos as int, "["@, spec_enc_cp_list(s) + ("]"@ + rest));
                    if s.len() == 0 {
                        assert(v@.skip(pos as int + 1) == Seq::<char>::empty() + ("]"@ + rest));
                        assert(Seq::<char>::empty() + ("]"@ + rest) =~= "]"@ + rest);
                        assert(v@[pos as int + 1] == v@.skip(pos as int + 1)[0]);
                        assert(v@[pos as int + 1] == ']');
                        assert(pos + 1 < v@.len());
                        assert(false);
                    }
                    assert(s.len() > 0);
                    assert(("]"@ + rest).len() > 0 && ("]"@ + rest)[0] == ']');
                    assert(v@.skip(pos as int + 1) == spec_enc_cp_list(s) + ("]"@ + rest));
                }
            }
            None
        },
    }
}

/// Where each piece of an encoded timestamp sits in the text.
proof fn lemma_ts_waypoints(vs: Seq<char>, pos: int, t: Timestamp, rest: Seq<char>)
    requires
        0 <= pos <= vs.len(),
        vs.skip(pos) == spec_enc_timestamp(t) + rest,
    ensures
        ({
            let a = "{\"seconds\":"@;
            let b = ",\"offset_seconds\":"@;
            let z = "}"@;
            let s1 = spec_enc_int(t.seconds as int);
            let o1 = spec_enc_int(t.offset_seconds as int);
            let p1 = pos + a.len();
            let p2 = p1 + s1.len();
            let p3 = p2 + b.len();
            let p4 = p3 + o1.len();
            &&& pos + a.len() <= vs.len()
            &&& vs.subrange(pos, p1) == a
            &&& vs.skip(p1) == s1 + (b + (o1 + (z + rest)))
            &&& p2 + b.len() <= vs.len()
            &&& vs.subrange(p2, p3) == b
            &&& vs.skip(p3) == o1 + (z + rest)
            &&& p4 + z.len() <= vs.len()
            &&& vs.subrange(p4, p4 + z.len()) == z
            &&& vs.skip(p4 + z.len()) == rest
            &&& p4 + z.len() == pos + spec_enc_timestamp(t).len()
            &&& !is_digit((b + (o1 + (z + rest)))[0])
            &&& !is_digit((z + rest)[0])
        }),
{
    reveal_strlit("{\"seconds\":");
    reveal_strlit(",\"offset_seconds\":");
    reveal_strlit("}");
    let a = "{\"seconds\":"@;
    let b = ",\"offset_seconds\":"@;
    let z = "}"@;
    let s1 = spec_enc_int(t.seconds as int);
    let o1 = spec_enc_int(t.offset_seconds as int);
    let p1 = pos + a.len();
    let p2 = p1 + s1.len();
    let p3 = p2 + b.len();
    let p4 = p3 + o1.len();
    assert(spec_enc_timestamp(t) + rest =~= a + (s1 + (b + (o1 + (z + rest)))));
    lemma_skip_concat(vs, pos, a, s1 + (b + (o1 + (z + rest))));
    lemma_skip_concat(vs, p1, s1, b + (o1 + (z + rest)));
    lemma_skip_concat(vs, p2, b, o1 + (z + rest));
    lemma_skip_concat(vs, p3, o1, z + rest);
    lemma_skip_concat(vs, p4, z, rest);
    assert((b + (o1 + (z + rest)))[0] == ',');
    assert((z + rest)[0] == '}');
}

fn parse_timestamp(v: &Vec<char>, pos: usize) -> (r: Option<(Timestamp, usize)>)
    requires
        pos <= v@.len(),
    ensures
        r matches Some(x) ==> pos < x.1 <= v@.len(),
        forall|t: Timestamp, rest: Seq<char>|
            #![trigger spec_enc_timestamp(t) + rest]
            v@.skip(pos as int) == spec_enc_timestamp(t) + rest ==> r == Some(
                (t, (pos + spec_enc_timestamp(t).len()) as usize),
            ),
{
    let _len: usize = v.len();
    let p1 = match expect_lit(v, pos, "{\"seconds\":") {
        Some(p) => p,
        None => {
            proof {
                assert forall|t: Timestamp, rest: Seq<char>|
                    v@.skip(pos as int) == spec_enc_timestamp(t) + rest implies false by {
                    lemma_ts_waypoints(v@, pos as int, t, rest);
                    reveal_strlit("{\"seconds\":");
                    reveal_strlit(",\"offset_seconds\":");
                    reveal_strlit("}");
                }
            }
            return None;
        },
    };
    let (secs, p2) = match parse_i64(v, p1) {
        Some(x) => x,
        None => {
            proof {
                assert forall|t: Timestamp, rest: Seq<char>|
                    v@.skip(pos as int) == spec_enc_timestamp(t) + rest implies false by {
                    lemma_ts_waypoints(v@, pos as int, t, rest);
                    reveal_strlit("{\"seconds\":");
                    reveal_strlit(",\"offset_seconds\":");
                    reveal_strlit("}");
                    let b = ",\"offset_seconds\":"@;
                    let z = "}"@;
                    let o1 = spec_enc_int(t.offset_seconds as int);
                    let a = "{\"seconds\":"@;
                    let s1 = spec_enc_int(t.seconds as int);
                    assert(p1 as int == pos + a.len());
                    assert(v@.skip(p1 as int) == s1 + (b + (o1 + (z + rest))));
                    assert(!is_digit((b + (o1 + (z + rest)))[0]));
                }
            }
            return None;
        },
    };
    let p3 = match expect_lit(v, p2, ",\"offset_seconds\":") {
        Some(p) => p,
        None => {
            proof {
                assert forall|t: Timestamp, rest: Seq<char>|
                    v@.skip(pos as int) == spec_enc_timestamp(t) + rest implies false by {
                    lemma_ts_waypoints(v@, pos as int, t, rest);
                    reveal_strlit("{\"seconds\":");
                    reveal_strlit(",\"offset_seconds\":");
                    reveal_strlit("}");
                    let b = ",\"offset_seconds\":"@;
                    let z = "}"@;
                    let o1 = spec_enc_int(t.offset_seconds as int);
                    let a = "{\"seconds\":"@;
                    let s1 = spec_enc_int(t.seconds as int);
                    assert(p1 as int == pos + a.len());
                    assert(v@.skip(p1 as int) == s1 + (b + (o1 + (z + rest))));
                    assert(!is_digit((b + (o1 + (z + rest)))[0]));
                    assert(p2 as int == p1 + s1.len());
                }
            }
            return None;
        },
    };
    let (offs, p4) = match parse_i64(v, p3) {
        Some(x) => x,
        None => {
            proof {
                assert forall|t: Timestamp, rest: Seq<char>|
                    v@.skip(pos as int) == spec_enc_timestamp(t) + rest implies false by {
                    lemma_ts_waypoints(v@, pos as int, t, rest);
                    reveal_strlit("{\"seconds\":");
                    reveal_strlit(",\"offset_seconds\":");
                    reveal_strlit("}");
                    let b = ",\"offset_seconds\":"@;
                    let z = "}"@;
                    let o1 = spec_enc_int(t.offset_seconds as int);
                    assert(v@.skip(p1 as int) == spec_enc_int(t.seconds as int) + (b + (o1 + (z
                        + rest))));
                    let a = "{\"seconds\":"@;
                    let s1 = spec_enc_int(t.seconds as int);
                    assert(p1 as int == pos + a.len());
                    assert(v@.skip(p1 as int) == s1 + (b + (o1 + (z + rest))));
                    assert(!is_digit((b + (o1 + (z + rest)))[0]));
                    assert(p2 as int == p1 + s1.len());
                    assert(p3 as int == p2 + b.len());
                    let n_off: i64 = t.offset_seconds as i64;
                    assert(spec_enc_int(n_off as int) == o1);
                    assert(v@.skip(p3 as int) == spec_enc_int(n_off as int) + (z + rest));
                }
            }
            return None;
        },
    };
    if offs < -2_147_483_648i64 || offs > 2_147_483_647i64 {
        proof {
            assert forall|t: Timestamp, rest: Seq<char>|
                v@.skip(pos as int) == spec_enc_timestamp(t) + rest implies false by {
                lemma_ts_waypoints(v@, pos as int, t, rest);
                    reveal_strlit("{\"seconds\":");
                    reveal_strlit(",\"offset_seconds\":");
                    reveal_strlit("}");
                let b = ",\"offset_seconds\":"@;
                let z = "}"@;
                let o1 = spec_enc_int(t.offset_seconds as int);
                let a = "{\"seconds\":"@;
                let s1 = spec_enc_int(t.seconds as int);
                assert(p1 as int == pos + a.len());
                assert(v@.skip(p1 as int) == s1 + (b + (o1 + (z + rest))));
                assert(!is_digit((b + (o1 + (z + rest)))[0]));
                assert(p2 as int == p1 + s1.len());
                assert(p3 as int == p2 + b.len());
                let n_off: i64 = t.offset_seconds as i64;
                assert(spec_enc_int(n_off as int) == o1);
                assert(v@.skip(p3 as int) == spec_enc_int(n_off as int) + (z + rest));
                assert(offs == n_off);
                assert(p4 as int == p3 + o1.len());
            }
        }
        return None;
    }
    let p5 = match expect_lit(v, p4, "}") {
        Some(p) => p,
        None => {
            proof {
                assert forall|t: Timestamp, rest: Seq<char>|
                    v@.skip(pos as int) == spec_enc_timestamp(t) + rest implies false by {
                    lemma_ts_waypoints(v@, pos as int, t, rest);
                    reveal_strlit("{\"seconds\":");
                    reveal_strlit(",\"offset_seconds\":");
                    reveal_strlit("}");
                    let b = ",\"offset_seconds\":"@;
                    let z = "}"@;
                    let o1 = spec_enc_int(t.offset_seconds as int);
                    let a = "{\"seconds\":"@;
                    let s1 = spec_enc_int(t.seconds as int);
                    assert(p1 as int == pos + a.len());
                    assert(v@.skip(p1 as int) == s1 + (b + (o1 + (z + rest))));
                    assert(!is_digit((b + (o1 + (z + rest)))[0]));
                    assert(p2 as int == p1 + s1.len());
                    assert(p3 as int == p2 + b.len());
                    let n_off: i64 = t.offset_seconds as i64;
                    assert(spec_enc_int(n_off as int) == o1);
                    assert(v@.skip(p3 as int) == spec_enc_int(n_off as int) + (z + rest));
                    assert(offs == n_off);
                    assert(p4 as int == p3 + o1.len());
                }
            }
            return None;
        },
    };
    let result = Some((Timestamp { seconds: secs, offset_seconds: offs as i32 }, p5));
    proof {
        assert forall|t: Timestamp, rest: Seq<char>|
            v@.skip(pos as int) == spec_enc_timestamp(t) + rest implies result == Some::<
            (Timestamp, usize),
        >((t, (pos + spec_enc_timestamp(t).len()) as usize)) by {
            lemma_ts_waypoints(v@, pos as int, t, rest);
                    reveal_strlit("{\"seconds\":");
                    reveal_strlit(",\"offset_seconds\":");
                    reveal_strlit("}");
            let b = ",\"offset_seconds\":"@;
            let z = "}"@;
            let o1 = spec_enc_int(t.offset_seconds as int);
            let a = "{\"seconds\":"@;
            let s1 = spec_enc_int(t.seconds as int);
            assert(p1 as int == pos + a.len());
            assert(v@.skip(p1 as int) == s1 + (b + (o1 + (z + rest))));
            assert(!is_digit((b + (o1 + (z + rest)))[0]));
            assert(p2 as int == p1 + s1.len());
            assert(p3 as int == p2 + b.len());
            let n_off: i64 = t.offset_seconds as i64;
            assert(spec_enc_int(n_off as int) == o1);
            assert(v@.skip(p3 as int) == spec_enc_int(n_off as int) + (z + rest));
            assert(offs == n_off);
            assert(p4 as int == p3 + o1.len());
            assert(secs == t.seconds);
            assert(offs as i32 == t.offset_seconds);
            assert(p5 as int == p4 + 1);
            assert(p5 as int == pos + spec_enc_timestamp(t).len());
        }
    }
    result
}

/// Every encoded record opens with a quote.
proof fn lemma_enc_reminder_starts_quote(x: Reminder)
    ensures
        spec_enc_reminder(x).len() >= 1,
        spec_enc_reminder(x)[0] == '"',
{
    reveal_strlit("\"");
    lemma_rem_nested(x, Seq::<char>::empty());
    assert(spec_enc_reminder(x) + Seq::<char>::empty() =~= spec_enc_reminder(x));
    assert(rem_nested(x, Seq::<char>::empty())[0] == '"');
}

/// Where each piece of an encoded record sits in the text.
#[verifier::rlimit(100)]
proof fn lemma_rem_waypoints(vs: Seq<char>, pos: int, x: Reminder, rest: Seq<char>)
    requires
        0 <= pos <= vs.len(),
        vs.skip(pos) == spec_enc_reminder(x) + rest,
    ensures
        ({
            let q = "\""@;
            let la = "\":{\"id\":"@;
            let lb = ",\"content\":"@;
            let lc = ",\"created_at\":"@;
            let ld = ",\"next_review\":"@;
            let le = ",\"review_count\":"@;
            let lf = ",\"completed\":"@;
            let z = "}"@;
            let di = spec_decimal(x.id as nat);
            let cont = spec_enc_content(x.content@);
            let tsa = spec_enc_timestamp(x.created_at);
            let tsb = spec_enc_timestamp(x.next_review);
            let nn = spec_decimal(x.review_count as nat);
            let bl: Seq<char> = if x.completed {
                "true"@
            } else {
                "false"@
            };
            let t15 = z + rest;
            let t14 = bl + t15;
            let t13 = lf + t14;
            let t12 = nn + t13;
            let t11 = le + t12;
            let t10 = tsb + t11;
            let t9 = ld + t10;
            let t8 = tsa + t9;
            let t7 = lc + t8;
            let t6 = cont + t7;
            let t5 = lb + t6;
            let t4 = di + t5;
            let t3 = la + t4;
            let t2 = di + t3;
            let w1 = pos + 1;
            let w2 = w1 + di.len();
            let w3 = w2 + la.len();
            let w4 = w3 + di.len();
            let w5 = w4 + lb.len();
            let w6 = w5 + cont.len();
            let w7 = w6 + lc.len();
            let w8 = w7 + tsa.len();
            let w9 = w8 + ld.len();
            let w10 = w9 + tsb.len();
            let w11 = w10 + le.len();
            let w12 = w11 + nn.len();
            let w13 = w12 + lf.len();
            let w14 = w13 + bl.len();
            let w15 = w14 + 1;
            &&& pos + 1 <= vs.len()
            &&& vs.subrange(pos, w1) == q
            &&& vs.skip(w1) == t2
            &&& t3.len() > 0 && !is_digit(t3[0])
            &&& w2 + la.len() <= vs.len()
            &&& vs.subrange(w2, w3) == la
            &&& vs.skip(w3) == t4
            &&& t5.len() > 0 && !is_digit(t5[0])
            &&& w4 + lb.len() <= vs.len()
            &&& vs.subrange(w4, w5) == lb
            &&& vs.skip(w5) == t6
            &&& w6 + lc.len() <= vs.len()
            &&& vs.subrange(w6, w7) == lc
            &&& vs.skip(w7) == t8
            &&& w8 + ld.len() <= vs.len()
            &&& vs.subrange(w8, w9) == ld
            &&& vs.skip(w9) == t10
            &&& w10 + le.len() <= vs.len()
            &&& vs.subrange(w10, w11) == le
            &&& vs.skip(w11) == t12
            &&& t13.len() > 0 && !is_digit(t13[0])
            &&& w12 + lf.len() <= vs.len()
            &&& vs.subrange(w12, w13) == lf
            &&& w13 + bl.len() <= vs.len()
            &&& vs.subrange(w13, w14) == bl
            &&& w14 + 1 <= vs.len()
            &&& vs.subrange(w14, w15) == z
            &&& vs.skip(w15) == rest
            &&& w15 == pos + spec_enc_reminder(x).len()
            &&& vs.skip(w5 + cont.len()) == spec_enc_rem_tail(x) + rest
            &&& w5 + cont.len() + spec_enc_rem_tail(x).len() == pos + spec_enc_reminder(x).len()
            &&& x.id as nat <= 9_223_372_036_854_775_808
            &&& x.review_count as nat <= 9_223_372_036_854_775_808
        }),
{
    reveal_strlit("\"");
    reveal_strlit("\":{\"id\":");
    reveal_strlit(",\"content\":");
    reveal_strlit("[");
    reveal_strlit("]");
    reveal_strlit(",\"created_at\":");
    reveal_strlit(",\"next_review\":");
    reveal_strlit(",\"review_count\":");
    reveal_strlit(",\"completed\":");
    reveal_strlit("true");
    reveal_strlit("false");
    reveal_strlit("}");
    lemma_rem_nested(x, rest);
    let q = "\""@;
    let la = "\":{\"id\":"@;
    let lb = ",\"content\":"@;
    let lbr = "["@;
    let lc = ",\"created_at\":"@;
    let ld = ",\"next_review\":"@;
    let le = ",\"review_count\":"@;
    let lf = ",\"completed\":"@;
    let z = "}"@;
    let di = spec_decimal(x.id as nat);
    let cpl = spec_enc_cp_list(x.content@);
    let cont = spec_enc_content(x.content@);
    let tsa = spec_enc_timestamp(x.created_at);
    let tsb = spec_enc_timestamp(x.next_review);
    let nn = spec_decimal(x.review_count as nat);
    let bl: Seq<char> = if x.completed {
        "true"@
    } else {
        "false"@
    };
    let t15 = z + rest;
    let t14 = bl + t15;
    let t13 = lf + t14;
    let t12 = nn + t13;
    let t11 = le + t12;
    let t10 = tsb + t11;
    let t9 = ld + t10;
    let t8 = tsa + t9;
    let t7 = lc + t8;
    let t6 = cont + t7;
    let t5 = lb + t6;
    let t4 = di + t5;
    let t3 = la + t4;
    let t2 = di + t3;
    assert(cont + t7 =~= lbr + (cpl + ("]"@ + t7)));
    assert(vs.skip(pos) == rem_nested(x, rest));
    assert(rem_nested(x, rest) == q + t2);
    lemma_decimal_digits(x.id as nat);
    lemma_decimal_digits(x.review_count as nat);
    let w1 = pos + 1;
    lemma_skip_concat(vs, pos, q, t2);
    let w2 = w1 + di.len();
    lemma_skip_concat(vs, w1, di, t3);
    let w3 = w2 + la.len();
    lemma_skip_concat(vs, w2, la, t4);
    let w4 = w3 + di.len();
    lemma_skip_concat(vs, w3, di, t5);
    let w5 = w4 + lb.len();
    lemma_skip_concat(vs, w4, lb, t6);
    let w6 = w5 + cont.len();
    lemma_skip_concat(vs, w5, cont, t7);
    let w7 = w6 + lc.len();
    lemma_skip_concat(vs, w6, lc, t8);
    let w8 = w7 + tsa.len();
    lemma_skip_concat(vs, w7, tsa, t9);
    let w9 = w8 + ld.len();
    lemma_skip_concat(vs, w8, ld, t10);
    let w10 = w9 + tsb.len();
    lemma_skip_concat(vs, w9, tsb, t11);
    let w11 = w10 + le.len();
    lemma_skip_concat(vs, w10, le, t12);
    let w12 = w11 + nn.len();
    lemma_skip_concat(vs, w11, nn, t13);
    let w13 = w12 + lf.len();
    lemma_skip_concat(vs, w12, lf, t14);
    let w14 = w13 + bl.len();
    lemma_skip_concat(vs, w13, bl, t15);
    lemma_skip_concat(vs, w14, z, rest);
    assert(t3[0] == '"');
    assert(t5[0] == ',');
    assert(t13[0] == ',');
    assert(spec_enc_rem_tail(x) + rest =~= t7);
    assert(spec_enc_rem_tail(x).len() == t7.len() - rest.len());
}

/// Where each trailing field of a record sits in the text.
#[verifier::rlimit(100)]
proof fn lemma_rem_tail_waypoints(vs: Seq<char>, pos: int, x: Reminder, rest: Seq<char>)
    requires
        0 <= pos <= vs.len(),
        vs.skip(pos) == spec_enc_rem_tail(x) + rest,
    ensures
        ({
            let lc = ",\"created_at\":"@;
            let ld = ",\"next_review\":"@;
            let le = ",\"review_count\":"@;
            let lf = ",\"completed\":"@;
            let z = "}"@;
            let tsa = spec_enc_timestamp(x.created_at);
            let tsb = spec_enc_timestamp(x.next_review);
            let nn = spec_decimal(x.review_count as nat);
            let bl: Seq<char> = if x.completed {
                "true"@
            } else {
                "false"@
            };
            let t15 = z + rest;
            let t14 = bl + t15;
            let t13 = lf + t14;
            let t12 = nn + t13;
            let t11 = le + t12;
            let t10 = tsb + t11;
            let t9 = ld + t10;
            let t8 = tsa + t9;
            let u1 = pos + lc.len();
            let u2 = u1 + tsa.len();
            let u3 = u2 + ld.len();
            let u4 = u3 + tsb.len();
            let u5 = u4 + le.len();
            let u6 = u5 + nn.len();
            let u7 = u6 + lf.len();
            let u8 = u7 + bl.len();
            let u9 = u8 + 1;
            &&& pos + lc.len() <= vs.len()
            &&& vs.subrange(pos, u1) == lc
            &&& vs.skip(u1) == t8
            &&& u2 + ld.len() <= vs.len()
            &&& vs.subrange(u2, u3) == ld
            &&& vs.skip(u3) == t10
            &&& u4 + le.len() <= vs.len()
            &&& vs.subrange(u4, u5) == le
            &&& vs.skip(u5) == t12
            &&& t13.len() > 0 && !is_digit(t13[0])
            &&& u6 + lf.len() <= vs.len()
            &&& vs.subrange(u6, u7) == lf
            &&& u7 + bl.len() <= vs.len()
            &&& vs.subrange(u7, u8) == bl
            &&& u8 + 1 <= vs.len()
            &&& vs.subrange(u8, u9) == z
            &&& vs.skip(u9) == rest
            &&& u9 == pos + spec_enc_rem_tail(x).len()
            &&& x.review_count as nat <= 9_223_372_036_854_775_808
        }),
{
    reveal_strlit(",\"created_at\":");
    reveal_strlit(",\"next_review\":");
    reveal_strlit(",\"review_count\":");
    reveal_strlit(",\"completed\":");
    reveal_strlit("true");
    reveal_strlit("false");
    reveal_strlit("}");
    let lc = ",\"created_at\":"@;
    let ld = ",\"next_review\":"@;
    let le = ",\"review_count\":"@;
    let lf = ",\"completed\":"@;
    let z = "}"@;
    let tsa = spec_enc_timestamp(x.created_at);
    let tsb = spec_enc_timestamp(x.next_review);
    let nn = spec_decimal(x.review_count as nat);
    let bl: Seq<char> = if x.completed {
        "true"@
    } else {
        "false"@
    };
    let t15 = z + rest;
    let t14 = bl + t15;
    let t13 = lf + t14;
    let t12 = nn + t13;
    let t11 = le + t12;
    let t10 = tsb + t11;
    let t9 = ld + t10;
    let t8 = tsa + t9;
    assert(spec_enc_rem_tail(x) + rest =~= lc + t8);
    let u1 = pos + lc.len();
    lemma_skip_concat(vs, pos, lc, t8);
    let u2 = u1 + tsa.len();
    lemma_skip_concat(vs, u1, tsa, t9);
    let u3 = u2 + ld.len();
    lemma_skip_concat(vs, u2, ld, t10);
    let u4 = u3 + tsb.len();
    lemma_skip_concat(vs, u3, tsb, t11);
    let u5 = u4 + le.len();
    lemma_skip_concat(vs, u4, le, t12);
    let u6 = u5 + nn.len();
    lemma_skip_concat(vs, u5, nn, t13);
    let u7 = u6 + lf.len();
    lemma_skip_concat(vs, u6, lf, t14);
    let u8 = u7 + bl.len();
    lemma_skip_concat(vs, u7, bl, t15);
    lemma_skip_concat(vs, u8, z, rest);
    assert(t13[0] == ',');
}

#[verifier::rlimit(100)]
fn parse_rem_tail(v: &Vec<char>, pos: usize) -> (r: Option<
    ((Timestamp, Timestamp, u32, bool), usize),
>)
    requires
        pos <= v@.len(),
    ensures
        r matches Some(y) ==> pos < y.1 <= v@.len(),
        forall|x: Reminder, rest: Seq<char>|
            #![trigger spec_enc_rem_tail(x) + rest]
            v@.skip(pos as int) == spec_enc_rem_tail(x) + rest ==> (r matches Some(y) && y.0.0
                == x.created_at && y.0.1 == x.next_review && y.0.2 == x.review_count && y.0.3
                == x.completed && y.1 as int == pos + spec_enc_rem_tail(x).len()),
{
    let _len: usize = v.len();
    let q1 = match expect_lit(v, pos, ",\"created_at\":") {
        Some(p) => p,
        None => {
            proof {
                assert forall|x: Reminder, rest: Seq<char>|
                    v@.skip(pos as int) == spec_enc_rem_tail(x) + rest implies false by {
                    lemma_rem_tail_waypoints(v@, pos as int, x, rest);
                    reveal_strlit(",\"created_at\":");
                    reveal_strlit(",\"next_review\":");
                    reveal_strlit(",\"review_count\":");
                    reveal_strlit(",\"completed\":");
                    reveal_strlit("true");
                    reveal_strlit("false");
                    reveal_strlit("}");
                    let lc = ",\"created_at\":"@;
                    let ld = ",\"next_review\":"@;
                    let le = ",\"review_count\":"@;
                    let lf = ",\"completed\":"@;
                    let z = "}"@;
                    let tsa = spec_enc_timestamp(x.created_at);
                    let tsb = spec_enc_timestamp(x.next_review);
                    let nn = spec_decimal(x.review_count as nat);
                    let bl: Seq<char> = if x.completed {
                        "true"@
                    } else {
                        "false"@
                    };
                    let t15 = z + rest;
                    let t14 = bl + t15;
                    let t13 = lf + t14;
                    let t12 = nn + t13;
                    let t11 = le + t12;
                    let t10 = tsb + t11;
                    let t9 = ld + t10;
                    let t8 = tsa + t9;
                }
            }
            return None;
        },
    };
    let (ca, q2) = match parse_timestamp(v, q1) {
        Some(y) => y,
        None => {
            proof {
                assert forall|x: Reminder, rest: Seq<char>|
                    v@.skip(pos as int) == spec_enc_rem_tail(x) + rest implies false by {
                    lemma_rem_tail_waypoints(v@, pos as int, x, rest);
                    reveal_strlit(",\"created_at\":");
                    reveal_strlit(",\"next_review\":");
                    reveal_strlit(",\"review_count\":");
                    reveal_strlit(",\"completed\":");
                    reveal_strlit("true");
                    reveal_strlit("false");
                    reveal_strlit("}");
                    let lc = ",\"created_at\":"@;
                    let ld = ",\"next_review\":"@;
                    let le = ",\"review_count\":"@;
                    let lf = ",\"completed\":"@;
                    let z = "}"@;
                    let tsa = spec_enc_timestamp(x.created_at);
                    let tsb = spec_enc_timestamp(x.next_review);
                    let nn = spec_decimal(x.review_count as nat);
                    let bl: Seq<char> = if x.completed {
                        "true"@
                    } else {
                        "false"@
                    };
                    let t15 = z + rest;
                    let t14 = bl + t15;
                    let t13 = lf + t14;
                    let t12 = nn + t13;
                    let t11 = le + t12;
                    let t10 = tsb + t11;
                    let t9 = ld + t10;
                    let t8 = tsa + t9;
                    assert(q1 as int == pos + lc.len());
                    assert(v@.skip(q1 as int) == spec_enc_timestamp(x.created_at) + t9);
                }
            }
            return None;
        },
    };
    let q3 = match expect_lit(v, q2, ",\"next_review\":") {
        Some(p) => p,
        None => {
            proof {
                assert forall|x: Reminder, rest: Seq<char>|
                    v@.skip(pos as int) == spec_enc_rem_tail(x) + rest implies false by {
                    lemma_rem_tail_waypoints(v@, pos as int, x, rest);
                    reveal_strlit(",\"created_at\":");
                    reveal_strlit(",\"next_review\":");
                    reveal_strlit(",\"review_count\":");
                    reveal_strlit(",\"completed\":");
                    reveal_strlit("true");
                    reveal_strlit("false");
                    reveal_strlit("}");
                    let lc = ",\"created_at\":"@;
                    let ld = ",\"next_review\":"@;
                    let le = ",\"review_count\":"@;
                    let lf = ",\"completed\":"@;
                    let z = "}"@;
                    let tsa = spec_enc_timestamp(x.created_at);
                    let tsb = spec_enc_timestamp(x.next_review);
                    let nn = spec_decimal(x.review_count as nat);
                    let bl: Seq<char> = if x.completed {
                        "true"@
                    } else {
                        "false"@
                    };
                    let t15 = z + rest;
                    let t14 = bl + t15;
                    let t13 = lf + t14;
                    let t12 = nn + t13;
                    let t11 = le + t12;
                    let t10 = tsb + t11;
                    let t9 = ld + t10;
                    let t8 = tsa + t9;
                    assert(q1 as int == pos + lc.len());
                    assert(v@.skip(q1 as int) == spec_enc_timestamp(x.created_at) + t9);
                    assert(ca == x.created_at);
                    assert(q2 as int == q1 + tsa.len());
                }
            }
            return None;
        },
    };
    let (nr, q4) = match parse_timestamp(v, q3) {
        Some(y) => y,
        None => {
            proof {
                assert forall|x: Reminder, rest: Seq<char>|
                    v@.skip(pos as int) == spec_enc_rem_tail(x) + rest implies false by {
                    lemma_rem_tail_waypoints(v@, pos as int, x, rest);
                    reveal_strlit(",\"created_at\":");
                    reveal_strlit(",\"next_review\":");
                    reveal_strlit(",\"review_count\":");
                    reveal_strlit(",\"completed\":");
                    reveal_strlit("true");
                    reveal_strlit("false");
                    reveal_strlit("}");
                    let lc = ",\"created_at\":"@;
                    let ld = ",\"next_review\":"@;
                    let le = ",\"review_count\":"@;
                    let lf = ",\"completed\":"@;
                    let z = "}"@;
                    let tsa = spec_enc_timestamp(x.created_at);
                    let tsb = spec_enc_timestamp(x.next_review);
                    let nn = spec_decimal(x.review_count as nat);
                    let bl: Seq<char> = if x.completed {
                        "true"@
                    } else {
                        "false"@
                    };
                    let t15 = z + rest;
                    let t14 = bl + t15;
                    let t13 = lf + t14;
                    let t12 = nn + t13;
                    let t11 = le + t12;
                    let t10 = tsb + t11;
                    let t9 = ld + t10;
                    let t8 = tsa + t9;
                    assert(q1 as int == pos + lc.len());
                    assert(v@.skip(q1 as int) == spec_enc_timestamp(x.created_at) + t9);
                    assert(ca == x.created_at);
                    assert(q2 as int == q1 + tsa.len());
                    assert(q3 as int == q2 + ld.len());
                    assert(v@.skip(q3 as int) == spec_enc_timestamp(x.next_review) + t11);
                }
            }
            return None;
        },
    };
    let q5 = match expect_lit(v, q4, ",\"review_count\":") {
        Some(p) => p,
        None => {
            proof {
                assert forall|x: Reminder, rest: Seq<char>|
                    v@.skip(pos as int) == spec_enc_rem_tail(x) + rest implies false by {
                    lemma_rem_tail_waypoints(v@, pos as int, x, rest);
                    reveal_strlit(",\"created_at\":");
                    reveal_strlit(",\"next_review\":");
                    reveal_strlit(",\"review_count\":");
                    reveal_strlit(",\"completed\":");
                    reveal_strlit("true");
                    reveal_strlit("false");
                    reveal_strlit("}");
                    let lc = ",\"created_at\":"@;
                    let ld = ",\"next_review\":"@;
                    let le = ",\"review_count\":"@;
                    let lf = ",\"completed\":"@;
                    let z = "}"@;
                    let tsa = spec_enc_timestamp(x.created_at);
                    let tsb = spec_enc_timestamp(x.next_review);
                    let nn = spec_decimal(x.review_count as nat);
                    let bl: Seq<char> = if x.completed {
                        "true"@
                    } else {
                        "false"@
                    };
                    let t15 = z + rest;
                    let t14 = bl + t15;
                    let t13 = lf + t14;
                    let t12 = nn + t13;
                    let t11 = le + t12;
                    let t10 = tsb + t11;
                    let t9 = ld + t10;
                    let t8 = tsa + t9;
                    assert(q1 as int == pos + lc.len());
                    assert(v@.skip(q1 as int) == spec_enc_timestamp(x.created_at) + t9);
                    assert(ca == x.created_at);
                    assert(q2 as int == q1 + tsa.len());
                    assert(q3 as int == q2 + ld.len());
                    assert(v@.skip(q3 as int) == spec_enc_timestamp(x.next_review) + t11);
                    assert(nr == x.next_review);
                    assert(q4 as int == q3 + tsb.len());
                }
            }
            return None;
        },
    };
    let (rc64, q6) = match parse_u64(v, q5) {
        Some(y) => y,
        None => {
            proof {
                assert forall|x: Reminder, rest: Seq<char>|
                    v@.skip(pos as int) == spec_enc_rem_tail(x) + rest implies false by {
                    lemma_rem_tail_waypoints(v@, pos as int, x, rest);
                    reveal_strlit(",\"created_at\":");
                    reveal_strlit(",\"next_review\":");
                    reveal_strlit(",\"review_count\":");
                    reveal_strlit(",\"completed\":");
                    reveal_strlit("true");
                    reveal_strlit("false");
                    reveal_strlit("}");
                    let lc = ",\"created_at\":"@;
                    let ld = ",\"next_review\":"@;
                    let le = ",\"review_count\":"@;
                    let lf = ",\"completed\":"@;
                    let z = "}"@;
                    let tsa = spec_enc_timestamp(x.created_at);
                    let tsb = spec_enc_timestamp(x.next_review);
                    let nn = spec_decimal(x.review_count as nat);
                    let bl: Seq<char> = if x.completed {
                        "true"@
                    } else {
                        "false"@
                    };
                    let t15 = z + rest;
                    let t14 = bl + t15;
                    let t13 = lf + t14;
                    let t12 = nn + t13;
                    let t11 = le + t12;
                    let t10 = tsb + t11;
                    let t9 = ld + t10;
                    let t8 = tsa + t9;
                    assert(q1 as int == pos + lc.len());
                    assert(v@.skip(q1 as int) == spec_enc_timestamp(x.created_at) + t9);
                    assert(ca == x.created_at);
                    assert(q2 as int == q1 + tsa.len());
                    assert(q3 as int == q2 + ld.len());
                    assert(v@.skip(q3 as int) == spec_enc_timestamp(x.next_review) + t11);
                    assert(nr == x.next_review);
                    assert(q4 as int == q3 + tsb.len());
                    assert(q5 as int == q4 + le.len());
                    assert(v@.skip(q5 as int) == nn + t13);
                    assert(t13.len() > 0 && !is_digit(t13[0]));
                }
            }
            return None;
        },
    };
    if rc64 > 4_294_967_295u64 {
        proof {
            assert forall|x: Reminder, rest: Seq<char>|
                v@.skip(pos as int) == spec_enc_rem_tail(x) + rest implies false by {
                lemma_rem_tail_waypoints(v@, pos as int, x, rest);
                reveal_strlit(",\"created_at\":");
                reveal_strlit(",\"next_review\":");
                reveal_strlit(",\"review_count\":");
                reveal_strlit(",\"completed\":");
                reveal_strlit("true");
                reveal_strlit("false");
                reveal_strlit("}");
                let lc = ",\"created_at\":"@;
                let ld = ",\"next_review\":"@;
                let le = ",\"review_count\":"@;
                let lf = ",\"completed\":"@;
                let z = "}"@;
                let tsa = spec_enc_timestamp(x.created_at);
                let tsb = spec_enc_timestamp(x.next_review);
                let nn = spec_decimal(x.review_count as nat);
                let bl: Seq<char> = if x.completed {
                    "true"@
                } else {
                    "false"@
                };
                let t15 = z + rest;
                let t14 = bl + t15;
                let t13 = lf + t14;
                let t12 = nn + t13;
                let t11 = le + t12;
                let t10 = tsb + t11;
                let t9 = ld + t10;
                let t8 = tsa + t9;
                assert(q1 as int == pos + lc.len());
                assert(v@.skip(q1 as int) == spec_enc_timestamp(x.created_at) + t9);
                assert(ca == x.created_at);
                assert(q2 as int == q1 + tsa.len());
                assert(q3 as int == q2 + ld.len());
                assert(v@.skip(q3 as int) == spec_enc_timestamp(x.next_review) + t11);
                assert(nr == x.next_review);
                assert(q4 as int == q3 + tsb.len());
                assert(q5 as int == q4 + le.len());
                assert(v@.skip(q5 as int) == nn + t13);
                assert(t13.len() > 0 && !is_digit(t13[0]));
                assert(rc64 == (x.review_count as nat) as u64);
                assert(q6 as int == q5 + nn.len());
                assert((x.review_count as nat) as u64 <= 4_294_967_295u64);
            }
        }
        return None;
    }
    let q7 = match expect_lit(v, q6, ",\"completed\":") {
        Some(p) => p,
        None => {
            proof {
                assert forall|x: Reminder, rest: Seq<char>|
                    v@.skip(pos as int) == spec_enc_rem_tail(x) + rest implies false by {
                    lemma_rem_tail_waypoints(v@, pos as int, x, rest);
                    reveal_strlit(",\"created_at\":");
                    reveal_strlit(",\"next_review\":");
                    reveal_strlit(",\"review_count\":");
                    reveal_strlit(",\"completed\":");
                    reveal_strlit("true");
                    reveal_strlit("false");
                    reveal_strlit("}");
                    let lc = ",\"created_at\":"@;
                    let ld = ",\"next_review\":"@;
                    let le = ",\"review_count\":"@;
                    let lf = ",\"completed\":"@;
                    let z = "}"@;
                    let tsa = spec_enc_timestamp(x.created_at);
                    let tsb = spec_enc_timestamp(x.next_review);
                    let nn = spec_decimal(x.review_count as nat);
                    let bl: Seq<char> = if x.completed {
                        "true"@
                    } else {
                        "false"@
                    };
                    let t15 = z + rest;
                    let t14 = bl + t15;
                    let t13 = lf + t14;
                    let t12 = nn + t13;
                    let t11 = le + t12;
                    let t10 = tsb + t11;
                    let t9 = ld + t10;
                    let t8 = tsa + t9;
                    assert(q1 as int == pos + lc.len());
                    assert(v@.skip(q1 as int) == spec_enc_timestamp(x.created_at) + t9);
                    assert(ca == x.created_at);
                    assert(q2 as int == q1 + tsa.len());
                    assert(q3 as int == q2 + ld.len());
                    assert(v@.skip(q3 as int) == spec_enc_timestamp(x.next_review) + t11);
                    assert(nr == x.next_review);
                    assert(q4 as int == q3 + tsb.len());
                    assert(q5 as int == q4 + le.len());
                    assert(v@.skip(q5 as int) == nn + t13);
                    assert(t13.len() > 0 && !is_digit(t13[0]));
                    assert(rc64 == (x.review_count as nat) as u64);
                    assert(q6 as int == q5 + nn.len());
                }
            }
            return None;
        },
    };
    let (completed, q8) = match expect_lit(v, q7, "true") {
        Some(p) => (true, p),
        None => match expect_lit(v, q7, "false") {
            Some(p) => (false, p),
            None => {
                proof {
                    assert forall|x: Reminder, rest: Seq<char>|
                        v@.skip(pos as int) == spec_enc_rem_tail(x) + rest implies false by {
                        lemma_rem_tail_waypoints(v@, pos as int, x, rest);
                        reveal_strlit(",\"created_at\":");
                        reveal_strlit(",\"next_review\":");
                        reveal_strlit(",\"review_count\":");
                        reveal_strlit(",\"completed\":");
                        reveal_strlit("true");
                        reveal_strlit("false");
                        reveal_strlit("}");
                        let lc = ",\"created_at\":"@;
                        let ld = ",\"next_review\":"@;
                        let le = ",\"review_count\":"@;
                        let lf = ",\"completed\":"@;
                        let z = "}"@;
                        let tsa = spec_enc_timestamp(x.created_at);
                        let tsb = spec_enc_timestamp(x.next_review);
                        let nn = spec_decimal(x.review_count as nat);
                        let bl: Seq<char> = if x.completed {
                            "true"@
                        } else {
                            "false"@
                        };
                        let t15 = z + rest;
                        let t14 = bl + t15;
                        let t13 = lf + t14;
                        let t12 = nn + t13;
                        let t11 = le + t12;
                        let t10 = tsb + t11;
                        let t9 = ld + t10;
                        let t8 = tsa + t9;
                        assert(q1 as int == pos + lc.len());
                        assert(v@.skip(q1 as int) == spec_enc_timestamp(x.created_at) + t9);
                        assert(ca == x.created_at);
                        assert(q2 as int == q1 + tsa.len());
                        assert(q3 as int == q2 + ld.len());
                        assert(v@.skip(q3 as int) == spec_enc_timestamp(x.next_review) + t11);
                        assert(nr == x.next_review);
                        assert(q4 as int == q3 + tsb.len());
                        assert(q5 as int == q4 + le.len());
                        assert(v@.skip(q5 as int) == nn + t13);
                        assert(t13.len() > 0 && !is_digit(t13[0]));
                        assert(rc64 == (x.review_count as nat) as u64);
                        assert(q6 as int == q5 + nn.len());
                        assert(q7 as int == q6 + lf.len());
                        if x.completed {
                            assert(v@.subrange(q7 as int, q7 as int + 4) == "true"@);
                        } else {
                            assert(v@.subrange(q7 as int, q7 as int + 5) == "false"@);
                        }
                    }
                }
                return None;
            },
        },
    };
    let q9 = match expect_lit(v, q8, "}") {
        Some(p) => p,
        None => {
            proof {
                assert forall|x: Reminder, rest: Seq<char>|
                    v@.skip(pos as int) == spec_enc_rem_tail(x) + rest implies false by {
                    lemma_rem_tail_waypoints(v@, pos as int, x, rest);
                    reveal_strlit(",\"created_at\":");
                    reveal_strlit(",\"next_review\":");
                    reveal_strlit(",\"review_count\":");
                    reveal_strlit(",\"completed\":");
                    reveal_strlit("true");
                    reveal_strlit("false");
                    reveal_strlit("}");
                    let lc = ",\"created_at\":"@;
                    let ld = ",\"next_review\":"@;
                    let le = ",\"review_count\":"@;
                    let lf = ",\"completed\":"@;
                    let z = "}"@;
                    let tsa = spec_enc_timestamp(x.created_at);
                    let tsb = spec_enc_timestamp(x.next_review);
                    let nn = spec_decimal(x.review_count as nat);
                    let bl: Seq<char> = if x.completed {
                        "true"@
                    } else {
                        "false"@
                    };
                    let t15 = z + rest;
                    let t14 = bl + t15;
                    let t13 = lf + t14;
                    let t12 = nn + t13;
                    let t11 = le + t12;
                    let t10 = tsb + t11;
                    let t9 = ld + t10;
                    let t8 = tsa + t9;
                    assert(q1 as int == pos + lc.len());
                    assert(v@.skip(q1 as int) == spec_enc_timestamp(x.created_at) + t9);
                    assert(ca == x.created_at);
                    assert(q2 as int == q1 + tsa.len());
                    assert(q3 as int == q2 + ld.len());
                    assert(v@.skip(q3 as int) == spec_enc_timestamp(x.next_review) + t11);
                    assert(nr == x.next_review);
                    assert(q4 as int == q3 + tsb.len());
                    assert(q5 as int == q4 + le.len());
                    assert(v@.skip(q5 as int) == nn + t13);
                    assert(t13.len() > 0 && !is_digit(t13[0]));
                    assert(rc64 == (x.review_count as nat) as u64);
                    assert(q6 as int == q5 + nn.len());
                    assert(q7 as int == q6 + lf.len());
                    assert(v@.subrange(q7 as int, q7 as int + bl.len() as int) == bl);
                    if completed {
                        assert(v@.subrange(q7 as int, q7 as int + 4) == "true"@);
                        if !x.completed {
                            assert(v@.subrange(q7 as int, q7 as int + 4)[0] == v@[q7 as int]);
                            assert(v@.subrange(q7 as int, q7 as int + 5)[0] == v@[q7 as int]);
                            assert(v@[q7 as int] == 't' && v@[q7 as int] == 'f');
                            assert(false);
                        }
                        assert(q8 as int == q7 + 4);
                    } else {
                        assert(v@.subrange(q7 as int, q7 as int + 5) == "false"@);
                        if x.completed {
                            assert(v@.subrange(q7 as int, q7 as int + 4)[0] == v@[q7 as int]);
                            assert(v@.subrange(q7 as int, q7 as int + 5)[0] == v@[q7 as int]);
                            assert(v@[q7 as int] == 't' && v@[q7 as int] == 'f');
                            assert(false);
                        }
                        assert(q8 as int == q7 + 5);
                    }
                    assert(completed == x.completed);
                    assert(q8 as int == q7 + bl.len());
                }
            }
            return None;
        },
    };
    let result = Some(((ca, nr, rc64 as u32, completed), q9));
    proof {
        assert forall|x: Reminder, rest: Seq<char>|
            v@.skip(pos as int) == spec_enc_rem_tail(x) + rest implies (result matches Some(y)
            && y.0.0 == x.created_at && y.0.1 == x.next_review && y.0.2 == x.review_count && y.0.3
            == x.completed && y.1 as int == pos + spec_enc_rem_tail(x).len()) by {
            lemma_rem_tail_waypoints(v@, pos as int, x, rest);
            reveal_strlit(",\"created_at\":");
            reveal_strlit(",\"next_review\":");
            reveal_strlit(",\"review_count\":");
            reveal_strlit(",\"completed\":");
            reveal_strlit("true");
            reveal_strlit("false");
            reveal_strlit("}");
            let lc = ",\"created_at\":"@;
            let ld = ",\"next_review\":"@;
            let le = ",\"review_count\":"@;
            let lf = ",\"completed\":"@;
            let z = "}"@;
            let tsa = spec_enc_timestamp(x.created_at);
            let tsb = spec_enc_timestamp(x.next_review);
            let nn = spec_decimal(x.review_count as nat);
            let bl: Seq<char> = if x.completed {
                "true"@
            } else {
                "false"@
            };
            let t15 = z + rest;
            let t14 = bl + t15;
            let t13 = lf + t14;
            let t12 = nn + t13;
            let t11 = le + t12;
            let t10 = tsb + t11;
            let t9 = ld + t10;
            let t8 = tsa + t9;
            assert(q1 as int == pos + lc.len());
            assert(v@.skip(q1 as int) == spec_enc_timestamp(x.created_at) + t9);
            assert(ca == x.created_at);
            assert(q2 as int == q1 + tsa.len());
            assert(q3 as int == q2 + ld.len());
            assert(v@.skip(q3 as int) == spec_enc_timestamp(x.next_review) + t11);
            assert(nr == x.next_review);
            assert(q4 as int == q3 + tsb.len());
            assert(q5 as int == q4 + le.len());
            assert(v@.skip(q5 as int) == nn + t13);
            assert(t13.len() > 0 && !is_digit(t13[0]));
            assert(rc64 == (x.review_count as nat) as u64);
            assert(q6 as int == q5 + nn.len());
            assert(q7 as int == q6 + lf.len());
            assert(v@.subrange(q7 as int, q7 as int + bl.len() as int) == bl);
            if completed {
                assert(v@.subrange(q7 as int, q7 as int + 4) == "true"@);
                if !x.completed {
                    assert(v@.subrange(q7 as int, q7 as int + 4)[0] == v@[q7 as int]);
                    assert(v@.subrange(q7 as int, q7 as int + 5)[0] == v@[q7 as int]);
                    assert(v@[q7 as int] == 't' && v@[q7 as int] == 'f');
                    assert(false);
                }
                assert(q8 as int == q7 + 4);
            } else {
                assert(v@.subrange(q7 as int, q7 as int + 5) == "false"@);
                if x.completed {
                    assert(v@.subrange(q7 as int, q7 as int + 4)[0] == v@[q7 as int]);
                    assert(v@.subrange(q7 as int, q7 as int + 5)[0] == v@[q7 as int]);
                    assert(v@[q7 as int] == 't' && v@[q7 as int] == 'f');
                    assert(false);
                }
                assert(q8 as int == q7 + 5);
            }
            assert(completed == x.completed);
            assert(q8 as int == q7 + bl.len());
            assert(q9 as int == q8 + 1);
            assert(q9 as int == pos + spec_enc_rem_tail(x).len());
            assert(rc64 as u32 == x.review_count);
        }
    }
    result
}

#[verifier::rlimit(100)]
#[verifier::spinoff_prover]
fn parse_reminder_entry(v: &Vec<char>, pos: usize) -> (r: Option<(Reminder, usize)>)
    requires
        pos <= v@.len(),
    ensures
        r matches Some(x) ==> pos < x.1 <= v@.len(),
        forall|x: Reminder, rest: Seq<char>|
            #![trigger spec_enc_reminder(x) + rest]
            v@.skip(pos as int) == spec_enc_reminder(x) + rest ==> (r matches Some(y)
                && reminder_equiv(y.0, x) && y.1 as int == pos + spec_enc_reminder(x).len()),
{
    let _len: usize = v.len();
    let p1 = match expect_lit(v, pos, "\"") {
        Some(p) => p,
        None => {
            proof {
                assert forall|x: Reminder, rest: Seq<char>|
                    v@.skip(pos as int) == spec_enc_reminder(x) + rest implies false by {
                    lemma_rem_waypoints(v@, pos as int, x, rest);
                    reveal_strlit("\"");
                    reveal_strlit("\":{\"id\":");
                    reveal_strlit(",\"content\":");
                    reveal_strlit(",\"created_at\":");
                    reveal_strlit(",\"next_review\":");
                    reveal_strlit(",\"review_count\":");
                    reveal_strlit(",\"completed\":");
                    reveal_strlit("true");
                    reveal_strlit("false");
                    reveal_strlit("}");
                    let q = "\""@;
                    let la = "\":{\"id\":"@;
                    let lb = ",\"content\":"@;
                    let lc = ",\"created_at\":"@;
                    let ld = ",\"next_review\":"@;
                    let le = ",\"review_count\":"@;
                    let lf = ",\"completed\":"@;
                    let z = "}"@;
                    let di = spec_decimal(x.id as nat);
                    let cont = spec_enc_content(x.content@);
                    let tsa = spec_enc_timestamp(x.created_at);
                    let tsb = spec_enc_timestamp(x.next_review);
                    let nn = spec_decimal(x.review_count as nat);
                    let bl: Seq<char> = if x.completed {
                        "true"@
                    } else {
                        "false"@
                    };
                    let t15 = z + rest;
                    let t14 = bl + t15;
                    let t13 = lf + t14;
                    let t12 = nn + t13;
                    let t11 = le + t12;
                    let t10 = tsb + t11;
                    let t9 = ld + t10;
                    let t8 = tsa + t9;
                    let t7 = lc + t8;
                    let t6 = cont + t7;
                    let t5 = lb + t6;
                    let t4 = di + t5;
                    let t3 = la + t4;
                }
            }
            return None;
        },
    };
    let (key, p2) = match parse_u64(v, p1) {
        Some(x) => x,
        None => {
            proof {
                assert forall|x: Reminder, rest: Seq<char>|
                    v@.skip(pos as int) == spec_enc_reminder(x) + rest implies false by {
                    lemma_rem_waypoints(v@, pos as int, x, rest);
                    reveal_strlit("\"");
                    reveal_strlit("\":{\"id\":");
                    reveal_strlit(",\"content\":");
                    reveal_strlit(",\"created_at\":");
                    reveal_strlit(",\"next_review\":");
                    reveal_strlit(",\"review_count\":");
                    reveal_strlit(",\"completed\":");
                    reveal_strlit("true");
                    reveal_strlit("false");
                    reveal_strlit("}");
                    let q = "\""@;
                    let la = "\":{\"id\":"@;
                    let lb = ",\"content\":"@;
                    let lc = ",\"created_at\":"@;
                    let ld = ",\"next_review\":"@;
                    let le = ",\"review_count\":"@;
                    let lf = ",\"completed\":"@;
                    let z = "}"@;
                    let di = spec_decimal(x.id as nat);
                    let cont = spec_enc_content(x.content@);
                    let tsa = spec_enc_timestamp(x.created_at);
                    let tsb = spec_enc_timestamp(x.next_review);
                    let nn = spec_decimal(x.review_count as nat);
                    let bl: Seq<char> = if x.completed {
                        "true"@
                    } else {
                        "false"@
                    };
                    let t15 = z + rest;
                    let t14 = bl + t15;
                    let t13 = lf + t14;
                    let t12 = nn + t13;
                    let t11 = le + t12;
                    let t10 = tsb + t11;
                    let t9 = ld + t10;
                    let t8 = tsa + t9;
                    let t7 = lc + t8;
                    let t6 = cont + t7;
                    let t5 = lb + t6;
                    let t4 = di + t5;
                    let t3 = la + t4;
                    assert(p1 as int == pos + 1);
                    assert(v@.skip(p1 as int) == di + t3);
                    assert(t3.len() > 0 && !is_digit(t3[0]));
                }
            }
            return None;
        },
    };
    let p3 = match expect_lit(v, p2, "\":{\"id\":") {
        Some(p) => p,
        None => {
            proof {
                assert forall|x: Reminder, rest: Seq<char>|
                    v@.skip(pos as int) == spec_enc_reminder(x) + rest implies false by {
                    lemma_rem_waypoints(v@, pos as int, x, rest);
                    reveal_strlit("\"");
                    reveal_strlit("\":{\"id\":");
                    reveal_strlit(",\"content\":");
                    reveal_strlit(",\"created_at\":");
                    reveal_strlit(",\"next_review\":");
                    reveal_strlit(",\"review_count\":");
                    reveal_strlit(",\"completed\":");
                    reveal_strlit("true");
                    reveal_strlit("false");
                    reveal_strlit("}");
                    let q = "\""@;
                    let la = "\":{\"id\":"@;
                    let lb = ",\"content\":"@;
                    let lc = ",\"created_at\":"@;
                    let ld = ",\"next_review\":"@;
                    let le = ",\"review_count\":"@;
                    let lf = ",\"completed\":"@;
                    let z = "}"@;
                    let di = spec_decimal(x.id as nat);
                    let cont = spec_enc_content(x.content@);
                    let tsa = spec_enc_timestamp(x.created_at);
                    let tsb = spec_enc_timestamp(x.next_review);
                    let nn = spec_decimal(x.review_count as nat);
                    let bl: Seq<char> = if x.completed {
                        "true"@
                    } else {
                        "false"@
                    };
                    let t15 = z + rest;
                    let t14 = bl + t15;
                    let t13 = lf + t14;
                    let t12 = nn + t13;
                    let t11 = le + t12;
                    let t10 = tsb + t11;
                    let t9 = ld + t10;
                    let t8 = tsa + t9;
                    let t7 = lc + t8;
                    let t6 = cont + t7;
                    let t5 = lb + t6;
                    let t4 = di + t5;
                    let t3 = la + t4;
                    assert(p1 as int == pos + 1);
                    assert(v@.skip(p1 as int) == di + t3);
                    assert(t3.len() > 0 && !is_digit(t3[0]));
                    assert(key == (x.id as nat) as u64);
                    assert(p2 as int == p1 + di.len());
                }
            }
            return None;
        },
    };
    let (id64, p4) = match parse_u64(v, p3) {
        Some(x) => x,
        None => {
            proof {
                assert forall|x: Reminder, rest: Seq<char>|
                    v@.skip(pos as int) == spec_enc_reminder(x) + rest implies false by {
                    lemma_rem_waypoints(v@, pos as int, x, rest);
                    reveal_strlit("\"");
                    reveal_strlit("\":{\"id\":");
                    reveal_strlit(",\"content\":");
                    reveal_strlit(",\"created_at\":");
                    reveal_strlit(",\"next_review\":");
                    reveal_strlit(",\"review_count\":");
                    reveal_strlit(",\"completed\":");
                    reveal_strlit("true");
                    reveal_strlit("false");
                    reveal_strlit("}");
                    let q = "\""@;
                    let la = "\":{\"id\":"@;
                    let lb = ",\"content\":"@;
                    let lc = ",\"created_at\":"@;
                    let ld = ",\"next_review\":"@;
                    let le = ",\"review_count\":"@;
                    let lf = ",\"completed\":"@;
                    let z = "}"@;
                    let di = spec_decimal(x.id as nat);
                    let cont = spec_enc_content(x.content@);
                    let tsa = spec_enc_timestamp(x.created_at);
                    let tsb = spec_enc_timestamp(x.next_review);
                    let nn = spec_decimal(x.review_count as nat);
                    let bl: Seq<char> = if x.completed {
                        "true"@
                    } else {
                        "false"@
                    };
                    let t15 = z + rest;
                    let t14 = bl + t15;
                    let t13 = lf + t14;
                    let t12 = nn + t13;
                    let t11 = le + t12;
                    let t10 = tsb + t11;
                    let t9 = ld + t10;
                    let t8 = tsa + t9;
                    let t7 = lc + t8;
                    let t6 = cont + t7;
                    let t5 = lb + t6;
                    let t4 = di + t5;
                    let t3 = la + t4;
                    assert(p1 as int == pos + 1);
                    assert(v@.skip(p1 as int) == di + t3);
                    assert(t3.len() > 0 && !is_digit(t3[0]));
                    assert(key == (x.id as nat) as u64);
                    assert(p2 as int == p1 + di.len());
                    assert(p3 as int == p2 + la.len());
                    assert(v@.skip(p3 as int) == di + t5);
                    assert(t5.len() > 0 && !is_digit(t5[0]));
                }
            }
            return None;
        },
    };
    if id64 > 4_294_967_295u64 || key != id64 {
        proof {
            assert forall|x: Reminder, rest: Seq<char>|
                v@.skip(pos as int) == spec_enc_reminder(x) + rest implies false by {
                lemma_rem_waypoints(v@, pos as int, x, rest);
                reveal_strlit("\"");
                reveal_strlit("\":{\"id\":");
                reveal_strlit(",\"content\":");
                reveal_strlit(",\"created_at\":");
                reveal_strlit(",\"next_review\":");
                reveal_strlit(",\"review_count\":");
                reveal_strlit(",\"completed\":");
                reveal_strlit("true");
                reveal_strlit("false");
                reveal_strlit("}");
                let q = "\""@;
                let la = "\":{\"id\":"@;
                let lb = ",\"content\":"@;
                let lc = ",\"created_at\":"@;
                let ld = ",\"next_review\":"@;
                let le = ",\"review_count\":"@;
                let lf = ",\"completed\":"@;
                let z = "}"@;
                let di = spec_decimal(x.id as nat);
                let cont = spec_enc_content(x.content@);
                let tsa = spec_enc_timestamp(x.created_at);
                let tsb = spec_enc_timestamp(x.next_review);
                let nn = spec_decimal(x.review_count as nat);
                let bl: Seq<char> = if x.completed {
                    "true"@
                } else {
                    "false"@
                };
                let t15 = z + rest;
                let t14 = bl + t15;
                let t13 = lf + t14;
                let t12 = nn + t13;
                let t11 = le + t12;
                let t10 = tsb + t11;
                let t9 = ld + t10;
                let t8 = tsa + t9;
                let t7 = lc + t8;
                let t6 = cont + t7;
                let t5 = lb + t6;
                let t4 = di + t5;
                let t3 = la + t4;
                assert(p1 as int == pos + 1);
                assert(v@.skip(p1 as int) == di + t3);
                assert(t3.len() > 0 && !is_digit(t3[0]));
                assert(key == (x.id as nat) as u64);
                assert(p2 as int == p1 + di.len());
                assert(p3 as int == p2 + la.len());
                assert(v@.skip(p3 as int) == di + t5);
                assert(t5.len() > 0 && !is_digit(t5[0]));
                assert(id64 == (x.id as nat) as u64);
                assert(p4 as int == p3 + di.len());
                assert((x.id as nat) as u64 <= 4_294_967_295u64);
            }
        }
        return None;
    }
    let p5 = match expect_lit(v, p4, ",\"content\":") {
        Some(p) => p,
        None => {
            proof {
                assert forall|x: Reminder, rest: Seq<char>|
                    v@.skip(pos as int) == spec_enc_reminder(x) + rest implies false by {
                    lemma_rem_waypoints(v@, pos as int, x, rest);
                    reveal_strlit("\"");
                    reveal_strlit("\":{\"id\":");
                    reveal_strlit(",\"content\":");
                    reveal_strlit(",\"created_at\":");
                    reveal_strlit(",\"next_review\":");
                    reveal_strlit(",\"review_count\":");
                    reveal_strlit(",\"completed\":");
                    reveal_strlit("true");
                    reveal_strlit("false");
                    reveal_strlit("}");
                    let q = "\""@;
                    let la = "\":{\"id\":"@;
                    let lb = ",\"content\":"@;
                    let lc = ",\"created_at\":"@;
                    let ld = ",\"next_review\":"@;
                    let le = ",\"review_count\":"@;
                    let lf = ",\"completed\":"@;
                    let z = "}"@;
                    let di = spec_decimal(x.id as nat);
                    let cont = spec_enc_content(x.content@);
                    let tsa = spec_enc_timestamp(x.created_at);
                    let tsb = spec_enc_timestamp(x.next_review);
                    let nn = spec_decimal(x.review_count as nat);
                    let bl: Seq<char> = if x.completed {
                        "true"@
                    } else {
                        "false"@
                    };
                    let t15 = z + rest;
                    let t14 = bl + t15;
                    let t13 = lf + t14;
                    let t12 = nn + t13;
                    let t11 = le + t12;
                    let t10 = tsb + t11;
                    let t9 = ld + t10;
                    let t8 = tsa + t9;
                    let t7 = lc + t8;
                    let t6 = cont + t7;
                    let t5 = lb + t6;
                    let t4 = di + t5;
                    let t3 = la + t4;
                    assert(p1 as int == pos + 1);
                    assert(v@.skip(p1 as int) == di + t3);
                    assert(t3.len() > 0 && !is_digit(t3[0]));
                    assert(key == (x.id as nat) as u64);
                    assert(p2 as int == p1 + di.len());
                    assert(p3 as int == p2 + la.len());
                    assert(v@.skip(p3 as int) == di + t5);
                    assert(t5.len() > 0 && !is_digit(t5[0]));
                    assert(id64 == (x.id as nat) as u64);
                    assert(p4 as int == p3 + di.len());
                }
            }
            return None;
        },
    };
    let (content, p6) = match parse_content(v, p5) {
        Some(x) => x,
        None => {
            proof {
                assert forall|x: Reminder, rest: Seq<char>|
                    v@.skip(pos as int) == spec_enc_reminder(x) + rest implies false by {
                    lemma_rem_waypoints(v@, pos as int, x, rest);
                    reveal_strlit("\"");
                    reveal_strlit("\":{\"id\":");
                    reveal_strlit(",\"content\":");
                    reveal_strlit(",\"created_at\":");
                    reveal_strlit(",\"next_review\":");
                    reveal_strlit(",\"review_count\":");
                    reveal_strlit(",\"completed\":");
                    reveal_strlit("true");
                    reveal_strlit("false");
                    reveal_strlit("}");
                    let q = "\""@;
                    let la = "\":{\"id\":"@;
                    let lb = ",\"content\":"@;
                    let lc = ",\"created_at\":"@;
                    let ld = ",\"next_review\":"@;
                    let le = ",\"review_count\":"@;
                    let lf = ",\"completed\":"@;
                    let z = "}"@;
                    let di = spec_decimal(x.id as nat);
                    let cont = spec_enc_content(x.content@);
                    let tsa = spec_enc_timestamp(x.created_at);
                    let tsb = spec_enc_timestamp(x.next_review);
                    let nn = spec_decimal(x.review_count as nat);
                    let bl: Seq<char> = if x.completed {
                        "true"@
                    } else {
                        "false"@
                    };
                    let t15 = z + rest;
                    let t14 = bl + t15;
                    let t13 = lf + t14;
                    let t12 = nn + t13;
                    let t11 = le + t12;
                    let t10 = tsb + t11;
                    let t9 = ld + t10;
                    let t8 = tsa + t9;
                    let t7 = lc + t8;
                    let t6 = cont + t7;
                    let t5 = lb + t6;
                    let t4 = di + t5;
                    let t3 = la + t4;
                    assert(p1 as int == pos + 1);
                    assert(v@.skip(p1 as int) == di + t3);
                    assert(t3.len() > 0 && !is_digit(t3[0]));
                    assert(key == (x.id as nat) as u64);
                    assert(p2 as int == p1 + di.len());
                    assert(p3 as int == p2 + la.len());
                    assert(v@.skip(p3 as int) == di + t5);
                    assert(t5.len() > 0 && !is_digit(t5[0]));
                    assert(id64 == (x.id as nat) as u64);
                    assert(p4 as int == p3 + di.len());
                    assert(p5 as int == p4 + lb.len());
                    assert(v@.skip(p5 as int) == spec_enc_content(x.content@) + t7);
                }
            }
            return None;
        },
    };
    let (tail_vals, p15) = match parse_rem_tail(v, p6) {
        Some(y) => y,
        None => {
            proof {
                assert forall|x: Reminder, rest: Seq<char>|
                    v@.skip(pos as int) == spec_enc_reminder(x) + rest implies false by {
                    lemma_rem_waypoints(v@, pos as int, x, rest);
                    reveal_strlit("\"");
                    reveal_strlit("\":{\"id\":");
                    reveal_strlit(",\"content\":");
                    reveal_strlit(",\"created_at\":");
                    reveal_strlit(",\"next_review\":");
                    reveal_strlit(",\"review_count\":");
                    reveal_strlit(",\"completed\":");
                    reveal_strlit("true");
                    reveal_strlit("false");
                    reveal_strlit("}");
                    let q = "\""@;
                    let la = "\":{\"id\":"@;
                    let lb = ",\"content\":"@;
                    let lc = ",\"created_at\":"@;
                    let ld = ",\"next_review\":"@;
                    let le = ",\"review_count\":"@;
                    let lf = ",\"completed\":"@;
                    let z = "}"@;
                    let di = spec_decimal(x.id as nat);
                    let cont = spec_enc_content(x.content@);
                    let tsa = spec_enc_timestamp(x.created_at);
                    let tsb = spec_enc_timestamp(x.next_review);
                    let nn = spec_decimal(x.review_count as nat);
                    let bl: Seq<char> = if x.completed {
                        "true"@
                    } else {
                        "false"@
                    };
                    let t15 = z + rest;
                    let t14 = bl + t15;
                    let t13 = lf + t14;
                    let t12 = nn + t13;
                    let t11 = le + t12;
                    let t10 = tsb + t11;
                    let t9 = ld + t10;
                    let t8 = tsa + t9;
                    let t7 = lc + t8;
                    let t6 = cont + t7;
                    let t5 = lb + t6;
                    let t4 = di + t5;
                    let t3 = la + t4;
                    assert(p1 as int == pos + 1);
                    assert(v@.skip(p1 as int) == di + t3);
                    assert(t3.len() > 0 && !is_digit(t3[0]));
                    assert(key == (x.id as nat) as u64);
                    assert(p2 as int == p1 + di.len());
                    assert(p3 as int == p2 + la.len());
                    assert(v@.skip(p3 as int) == di + t5);
                    assert(t5.len() > 0 && !is_digit(t5[0]));
                    assert(id64 == (x.id as nat) as u64);
                    assert(p4 as int == p3 + di.len());
                    assert(p5 as int == p4 + lb.len());
                    assert(v@.skip(p5 as int) == spec_enc_content(x.content@) + t7);
                    assert(content@ == x.content@);
                    assert(p6 as int == p5 + cont.len());
                    assert(v@.skip(p6 as int) == spec_enc_rem_tail(x) + rest);
                }
            }
            return None;
        },
    };
    let rem = Reminder {
        id: id64 as u32,
        content,
        created_at: tail_vals.0,
        next_review: tail_vals.1,
        review_count: tail_vals.2,
        completed: tail_vals.3,
    };
    let result = Some((rem, p15));
    proof {
        assert forall|x: Reminder, rest: Seq<char>|
            v@.skip(pos as int) == spec_enc_reminder(x) + rest implies ((result matches Some(y)
            && reminder_equiv(y.0, x) && y.1 as int == pos + spec_enc_reminder(x).len())) by {
            lemma_rem_waypoints(v@, pos as int, x, rest);
            reveal_strlit("\"");
            reveal_strlit("\":{\"id\":");
            reveal_strlit(",\"content\":");
            reveal_strlit(",\"created_at\":");
            reveal_strlit(",\"next_review\":");
            reveal_strlit(",\"review_count\":");
            reveal_strlit(",\"completed\":");
            reveal_strlit("true");
            reveal_strlit("false");
            reveal_strlit("}");
            let q = "\""@;
            let la = "\":{\"id\":"@;
            let lb = ",\"content\":"@;
            let lc = ",\"created_at\":"@;
            let ld = ",\"next_review\":"@;
            let le = ",\"review_count\":"@;
            let lf = ",\"completed\":"@;
            let z = "}"@;
            let di = spec_decimal(x.id as nat);
            let cont = spec_enc_content(x.content@);
            let tsa = spec_enc_timestamp(x.created_at);
            let tsb = spec_enc_timestamp(x.next_review);
            let nn = spec_decimal(x.review_count as nat);
            let bl: Seq<char> = if x.completed {
                "true"@
            } else {
                "false"@
            };
            let t15 = z + rest;
            let t14 = bl + t15;
            let t13 = lf + t14;
            let t12 = nn + t13;
            let t11 = le + t12;
            let t10 = tsb + t11;
            let t9 = ld + t10;
            let t8 = tsa + t9;
            let t7 = lc + t8;
            let t6 = cont + t7;
            let t5 = lb + t6;
            let t4 = di + t5;
            let t3 = la + t4;
            assert(p1 as int == pos + 1);
            assert(v@.skip(p1 as int) == di + t3);
            assert(t3.len() > 0 && !is_digit(t3[0]));
            assert(key == (x.id as nat) as u64);
            assert(p2 as int == p1 + di.len());
            assert(p3 as int == p2 + la.len());
            assert(v@.skip(p3 as int) == di + t5);
            assert(t5.len() > 0 && !is_digit(t5[0]));
            assert(id64 == (x.id as nat) as u64);
            assert(p4 as int == p3 + di.len());
            assert(p5 as int == p4 + lb.len());
            assert(v@.skip(p5 as int) == spec_enc_content(x.content@) + t7);
            assert(content@ == x.content@);
            assert(p6 as int == p5 + cont.len());
            assert(v@.skip(p6 as int) == spec_enc_rem_tail(x) + rest);
            assert(tail_vals.0 == x.created_at);
            assert(tail_vals.1 == x.next_review);
            assert(tail_vals.2 == x.review_count);
            assert(tail_vals.3 == x.completed);
            assert(p15 as int == p6 + spec_enc_rem_tail(x).len());
            assert(p15 as int == pos + spec_enc_reminder(x).len());
            assert(id64 as u32 == x.id);
            assert(reminder_equiv(rem, x));
        }
    }
    result
}

/// Where the first record of a nonempty encoded list sits, and what
/// follows it.
proof fn lemma_rem_list_head(vs: Seq<char>, pos: int, s: Seq<Reminder>, rest: Seq<char>)
    requires
        0 <= pos <= vs.len(),
        s.len() > 0,
        vs.skip(pos) == spec_enc_reminder_list(s) + rest,
    ensures
        ({
            let e0 = spec_enc_reminder(s[0]);
            let tail: Seq<char> = if s.len() == 1 {
                rest
            } else {
                ","@ + (spec_enc_reminder_list(s.drop_first()) + rest)
            };
            &&& vs.skip(pos) == e0 + tail
            &&& pos + e0.len() <= vs.len()
            &&& vs.skip(pos + e0.len()) == tail
            &&& (s.len() > 1 ==> vs.skip(pos + e0.len() + 1) == spec_enc_reminder_list(
                s.drop_first(),
            ) + rest)
            &&& (s.len() > 1 ==> spec_enc_reminder_list(s).len() == e0.len() + 1
                + spec_enc_reminder_list(s.drop_first()).len())
            &&& (s.len() > 1 ==> tail[0] == ',')
            &&& (s.len() == 1 ==> spec_enc_reminder_list(s).len() == e0.len())
            &&& (s.len() == 1 ==> tail == rest)
        }),
{
    reveal_strlit(",");
    let e0 = spec_enc_reminder(s[0]);
    if s.len() == 1 {
        lemma_skip_concat(vs, pos, e0, rest);
    } else {
        let t2 = spec_enc_reminder_list(s.drop_first());
        assert(spec_enc_reminder_list(s) == e0 + ","@ + t2);
        assert((e0 + ","@ + t2) + rest =~= e0 + (","@ + (t2 + rest)));
        lemma_skip_concat(vs, pos, e0, ","@ + (t2 + rest));
        lemma_skip_concat(vs, pos + e0.len(), ","@, t2 + rest);
        assert((","@ + (t2 + rest))[0] == ',');
    }
}

#[verifier::rlimit(100)]
fn parse_records(v: &Vec<char>, pos: usize, out: &mut Vec<Reminder>) -> (r: Option<usize>)
    requires
        pos <= v@.len(),
    ensures
        r matches Some(p) ==> pos < p <= v@.len(),
        forall|s: Seq<Reminder>, rest: Seq<char>|
            #![trigger spec_enc_reminder_list(s) + rest]
            (s.len() > 0 && rest.len() > 0 && rest[0] == '}' && v@.skip(pos as int)
                == spec_enc_reminder_list(s) + rest) ==> (r matches Some(p) && final(out)@.len()
                == old(out)@.len() + s.len() && (forall|i: int|
                0 <= i < old(out)@.len() ==> (#[trigger] final(out)@[i]) == old(out)@[i]) && (
            forall|i: int|
                0 <= i < s.len() ==> reminder_equiv(
                    #[trigger] final(out)@[old(out)@.len() + i],
                    s[i],
                )) && p as int == pos + spec_enc_reminder_list(s).len() + 1),
    decreases v@.len() - pos,
{
    let _len: usize = v.len();
    let (rem, p2) = match parse_reminder_entry(v, pos) {
        Some(y) => y,
        None => {
            proof {
                assert forall|s: Seq<Reminder>, rest: Seq<char>|
                    (s.len() > 0 && rest.len() > 0 && rest[0] == '}' && v@.skip(pos as int)
                        == spec_enc_reminder_list(s) + rest) implies false by {
                    lemma_rem_list_head(v@, pos as int, s, rest);
                    let e0 = spec_enc_reminder(s[0]);
                    let tail: Seq<char> = if s.len() == 1 {
                        rest
                    } else {
                        ","@ + (spec_enc_reminder_list(s.drop_first()) + rest)
                    };
                    assert(v@.skip(pos as int) == e0 + tail);
                }
            }
            return None;
        },
    };
    out.push(rem);
    if p2 < v.len() && v[p2] == ',' {
        let ghost out_before = out@;
        let r2 = parse_records(v, p2 + 1, out);
        proof {
            assert forall|s: Seq<Reminder>, rest: Seq<char>|
                (s.len() > 0 && rest.len() > 0 && rest[0] == '}' && v@.skip(pos as int)
                    == spec_enc_reminder_list(s) + rest) implies (r2 matches Some(p) && out@.len()
                == old(out)@.len() + s.len() && (forall|i: int|
                0 <= i < old(out)@.len() ==> (#[trigger] out@[i]) == old(out)@[i]) && (forall|
                i: int,
            |
                0 <= i < s.len() ==> reminder_equiv(
                    #[trigger] out@[old(out)@.len() + i],
                    s[i],
                )) && p as int == pos + spec_enc_reminder_list(s).len() + 1) by {
                lemma_rem_list_head(v@, pos as int, s, rest);
                let e0 = spec_enc_reminder(s[0]);
                let tail: Seq<char> = if s.len() == 1 {
                    rest
                } else {
                    ","@ + (spec_enc_reminder_list(s.drop_first()) + rest)
                };
                assert(v@.skip(pos as int) == e0 + tail);
                assert(reminder_equiv(rem, s[0]));
                assert(p2 as int == pos + e0.len());
                if s.len() == 1 {
                    assert(v@[p2 as int] == v@.skip(pos as int)[e0.len() as int]);
                    assert(v@[p2 as int] == '}');
                    assert(false);
                }
                let s2 = s.drop_first();
                assert(v@.skip(p2 as int + 1) == spec_enc_reminder_list(s2) + rest);
                assert(s2.len() > 0);
                assert(r2 matches Some(p) && out@.len() == out_before.len() + s2.len() && (forall|
                    i: int,
                |
                    0 <= i < out_before.len() ==> (#[trigger] out@[i]) == out_before[i]) && (
                forall|i: int|
                    0 <= i < s2.len() ==> reminder_equiv(
                        #[trigger] out@[out_before.len() + i],
                        s2[i],
                    )) && p as int == p2 + 1 + spec_enc_reminder_list(s2).len() + 1);
                assert(out_before == old(out)@.push(rem));
                assert(out@[old(out)@.len() as int] == rem);
                assert forall|i: int| 0 <= i < s.len() implies reminder_equiv(
                    #[trigger] out@[old(out)@.len() + i],
                    s[i],
                ) by {
                    if i > 0 {
                        assert(out@[out_before.len() + (i - 1)] == out@[old(out)@.len() + i]);
                        assert(reminder_equiv(out@[out_before.len() + (i - 1)], s2[i - 1]));
                        assert(s2[i - 1] == s[i]);
                    }
                }
            }
        }
        r2
    } else if p2 < v.len() && v[p2] == '}' {
        proof {
            assert forall|s: Seq<Reminder>, rest: Seq<char>|
                (s.len() > 0 && rest.len() > 0 && rest[0] == '}' && v@.skip(pos as int)
                    == spec_enc_reminder_list(s) + rest) implies (out@.len() == old(out)@.len()
                + s.len() && (forall|i: int|
                0 <= i < old(out)@.len() ==> (#[trigger] out@[i]) == old(out)@[i]) && (forall|
                i: int,
            |
                0 <= i < s.len() ==> reminder_equiv(
                    #[trigger] out@[old(out)@.len() + i],
                    s[i],
                )) && p2 + 1 == pos + spec_enc_reminder_list(s).len() + 1) by {
                lemma_rem_list_head(v@, pos as int, s, rest);
                let e0 = spec_enc_reminder(s[0]);
                let tail: Seq<char> = if s.len() == 1 {
                    rest
                } else {
                    ","@ + (spec_enc_reminder_list(s.drop_first()) + rest)
                };
                assert(v@.skip(pos as int) == e0 + tail);
                assert(reminder_equiv(rem, s[0]));
                assert(p2 as int == pos + e0.len());
                if s.len() > 1 {
                    assert(v@[p2 as int] == v@.skip(pos as int)[e0.len() as int]);
                    assert(v@[p2 as int] == ',');
                    assert(false);
                }
                assert(out@ == old(out)@.push(rem));
                assert(out@[old(out)@.len() as int] == rem);
            }
        }
        Some(p2 + 1)
    } else {
        proof {
            assert forall|s: Seq<Reminder>, rest: Seq<char>|
                (s.len() > 0 && rest.len() > 0 && rest[0] == '}' && v@.skip(pos as int)
                    == spec_enc_reminder_list(s) + rest) implies false by {
                lemma_rem_list_head(v@, pos as int, s, rest);
                let e0 = spec_enc_reminder(s[0]);
                let tail: Seq<char> = if s.len() == 1 {
                    rest
                } else {
                    ","@ + (spec_enc_reminder_list(s.drop_first()) + rest)
                };
                assert(v@.skip(pos as int) == e0 + tail);
                assert(p2 as int == pos + e0.len());
                assert(v@.skip(pos as int + e0.len() as int) == tail);
                assert(v@[p2 as int] == v@.skip(pos as int)[e0.len() as int]);
                assert(v@[p2 as int] == '}' || v@[p2 as int] == ',');
                assert(tail.len() > 0);
                assert(p2 < v@.len());
            }
        }
        None
    }
}

/// Records that agree field for field have the same stored text.
proof fn lemma_enc_list_equiv(s1: Seq<Reminder>, s2: Seq<Reminder>)
    requires
        s1.len() == s2.len(),
        forall|i: int| 0 <= i < s1.len() ==> reminder_equiv(#[trigger] s1[i], #[trigger] s2[i]),
    ensures
        spec_enc_reminder_list(s1) == spec_enc_reminder_list(s2),
    decreases s1.len(),
{
    if s1.len() > 0 {
        assert(reminder_equiv(s1[0], s2[0]));
        assert(spec_enc_reminder(s1[0]) == spec_enc_reminder(s2[0]));
        if s1.len() > 1 {
            assert forall|i: int| 0 <= i < s1.drop_first().len() implies reminder_equiv(
                #[trigger] s1.drop_first()[i],
                #[trigger] s2.drop_first()[i],
            ) by {
                assert(s1.drop_first()[i] == s1[i + 1]);
                assert(s2.drop_first()[i] == s2[i + 1]);
                assert(reminder_equiv(s1[i + 1], s2[i + 1]));
            }
            lemma_enc_list_equiv(s1.drop_first(), s2.drop_first());
        }
    }
}

/// Where each piece of a whole stored store sits in its text.
#[verifier::rlimit(100)]
proof fn lemma_store_waypoints(vs: Seq<char>, w: StoreView)
    requires
        vs == spec_enc_store(w),
    ensures
        ({
            let g = "{\"reminders\":{"@;
            let h = ",\"next_id\":"@;
            let z = "}"@;
            let l = spec_enc_reminder_list(w.reminders);
            let nid = spec_decimal(w.next_id as nat);
            let m1 = g.len() as int;
            let m2 = m1 + l.len();
            let m3 = m2 + 1;
            let m4 = m3 + h.len();
            let m5 = m4 + nid.len();
            &&& g.len() <= vs.len()
            &&& vs.subrange(0, m1) == g
            &&& vs.skip(m1) == l + (z + (h + (nid + z)))
            &&& (z + (h + (nid + z)))[0] == '}'
            &&& vs.subrange(m2, m3) == z
            &&& m3 + h.len() <= vs.len()
            &&& vs.subrange(m3, m4) == h
            &&& vs.skip(m4) == nid + z
            &&& z.len() > 0 && !is_digit(z[0])
            &&& m5 + 1 <= vs.len()
            &&& vs.subrange(m5, m5 + 1) == z
            &&& m5 + 1 == vs.len()
            &&& w.next_id as nat <= 9_223_372_036_854_775_808
        }),
{
    reveal_strlit("{\"reminders\":{");
    reveal_strlit("},\"next_id\":");
    reveal_strlit(",\"next_id\":");
    reveal_strlit("}");
    let g = "{\"reminders\":{"@;
    let big = "},\"next_id\":"@;
    let h = ",\"next_id\":"@;
    let z = "}"@;
    let l = spec_enc_reminder_list(w.reminders);
    let nid = spec_decimal(w.next_id as nat);
    assert(big =~= z + h);
    let x1 = z + (h + (nid + z));
    assert(spec_enc_store(w) == ((g + l) + big + nid) + z);
    assert((((g + l) + big) + nid) + z =~= ((g + l) + big) + (nid + z));
    assert(((g + l) + big) + (nid + z) =~= (g + l) + (big + (nid + z)));
    assert(big + (nid + z) =~= x1);
    assert((g + l) + x1 =~= g + (l + x1));
    assert(vs == g + (l + x1));
    assert(vs.skip(0) =~= vs);
    let m1 = g.len() as int;
    lemma_skip_concat(vs, 0, g, l + x1);
    let m2 = m1 + l.len();
    lemma_skip_concat(vs, m1, l, x1);
    let m3 = m2 + 1;
    lemma_skip_concat(vs, m2, z, h + (nid + z));
    let m4 = m3 + h.len();
    lemma_skip_concat(vs, m3, h, nid + z);
    let m5 = m4 + nid.len();
    lemma_skip_concat(vs, m4, nid, z);
    lemma_skip_concat(vs, m5, z, Seq::<char>::empty());
    assert(x1[0] == '}');
    assert(vs.skip(m5 + 1) == Seq::<char>::empty());
    assert(vs.skip(m5 + 1).len() == vs.len() - (m5 + 1));
}

impl ReminderStore {
    /// Parses stored text back into a store. Returns a store exactly when
    /// the text is the stored form of a well-formed store: the parsed
    /// value is serialized again and must reproduce the text letter for
    /// letter, so a successful load is provably the unique store that
    /// serializes to the loaded text.
    #[verifier::rlimit(100)]
    pub fn from_json(text: &str) -> (r: Option<ReminderStore>)
        ensures
            r matches Some(s) ==> s@.wf() && spec_enc_store(s@) == text@,
            (exists|w: StoreView| w.wf() && spec_enc_store(w) == text@) ==> r is Some,
    {
        let v = str_to_chars(text);
        let len = v.len();
        let p1 = match expect_lit(&v, 0, "{\"reminders\":{") {
            Some(p) => p,
            None => {
            proof {
                if exists|w0: StoreView| w0.wf() && spec_enc_store(w0) == text@ {
                    let w = choose|w0: StoreView| w0.wf() && spec_enc_store(w0) == text@;
                    lemma_store_waypoints(v@, w);
                    reveal_strlit("{\"reminders\":{");
                    reveal_strlit(",\"next_id\":");
                    reveal_strlit("}");
                    let g = "{\"reminders\":{"@;
                    let h = ",\"next_id\":"@;
                    let z = "}"@;
                    let l = spec_enc_reminder_list(w.reminders);
                    let nid = spec_decimal(w.next_id as nat);
                    let x1 = z + (h + (nid + z));

                    assert(false);
                }
            }
            return None;
            },
        };
        let mut reminders: Vec<Reminder> = Vec::new();
        let p: usize;
        if p1 < len && v[p1] == '}' {
            p = p1 + 1;
        } else {
            match parse_records(&v, p1, &mut reminders) {
                Some(p2) => {
                    p = p2;
                },
                None => {
                    proof {
                        if exists|w0: StoreView| w0.wf() && spec_enc_store(w0) == text@ {
                            let w = choose|w0: StoreView| w0.wf() && spec_enc_store(w0) == text@;
                            lemma_store_waypoints(v@, w);
                            reveal_strlit("{\"reminders\":{");
                            reveal_strlit(",\"next_id\":");
                            reveal_strlit("}");
                            let g = "{\"reminders\":{"@;
                            let h = ",\"next_id\":"@;
                            let z = "}"@;
                            let l = spec_enc_reminder_list(w.reminders);
                            let nid = spec_decimal(w.next_id as nat);
                            let x1 = z + (h + (nid + z));
                            assert(p1 as int == g.len());
                            assert(v@.skip(p1 as int) == l + x1);
                            assert(false);
                        }
                    }
                    return None;
                },
            }
        }
        let p3 = match expect_lit(&v, p, ",\"next_id\":") {
            Some(q) => q,
            None => {
            proof {
                if exists|w0: StoreView| w0.wf() && spec_enc_store(w0) == text@ {
                    let w = choose|w0: StoreView| w0.wf() && spec_enc_store(w0) == text@;
                    lemma_store_waypoints(v@, w);
                    reveal_strlit("{\"reminders\":{");
                    reveal_strlit(",\"next_id\":");
                    reveal_strlit("}");
                    let g = "{\"reminders\":{"@;
                    let h = ",\"next_id\":"@;
                    let z = "}"@;
                    let l = spec_enc_reminder_list(w.reminders);
                    let nid = spec_decimal(w.next_id as nat);
                    let x1 = z + (h + (nid + z));
                    assert(p1 as int == g.len());
                    assert(v@.skip(p1 as int) == l + x1);
                    if w.reminders.len() == 0 {
                        assert(l == Seq::<char>::empty());
                        assert(l + x1 =~= x1);
                        assert(v@[p1 as int] == v@.skip(p1 as int)[0]);
                        assert(v@[p1 as int] == '}');
                        assert(p1 < v@.len());
                        assert(p as int == p1 + 1);
                        assert(reminders@ =~= Seq::<Reminder>::empty());
                    } else {
                        lemma_rem_list_head(v@, p1 as int, w.reminders, x1);
                        let e0 = spec_enc_reminder(w.reminders[0]);
                        let tail: Seq<char> = if w.reminders.len() == 1 {
                            x1
                        } else {
                            ","@ + (spec_enc_reminder_list(w.reminders.drop_first()) + x1)
                        };
                        assert(v@.skip(p1 as int) == e0 + tail);
                        lemma_enc_reminder_starts_quote(w.reminders[0]);
                        reveal_strlit("\"");
                        assert(v@.skip(p1 as int)[0] == v@[p1 as int]);
                        assert((e0 + tail)[0] == e0[0]);
                        assert(v@[p1 as int] == '"');
                        assert(x1.len() > 0 && x1[0] == '}');
                        assert(w.reminders.len() > 0);
                        assert(v@.skip(p1 as int) == spec_enc_reminder_list(w.reminders) + x1);
                    }
                    assert(reminders@.len() == w.reminders.len());
                    assert forall|i: int| 0 <= i < w.reminders.len() implies reminder_equiv(
                        #[trigger] reminders@[i],
                        w.reminders[i],
                    ) by {
                        if w.reminders.len() > 0 {
                            assert(reminder_equiv(reminders@[0 + i], w.reminders[i]));
                        }
                    }
                    assert(p as int == g.len() + l.len() + 1);
                    assert(false);
                }
            }
            return None;
            },
        };
        let (nid64, p4) = match parse_u64(&v, p3) {
            Some(x) => x,
            None => {
            proof {
                if exists|w0: StoreView| w0.wf() && spec_enc_store(w0) == text@ {
                    let w = choose|w0: StoreView| w0.wf() && spec_enc_store(w0) == text@;
                    lemma_store_waypoints(v@, w);
                    reveal_strlit("{\"reminders\":{");
                    reveal_strlit(",\"next_id\":");
                    reveal_strlit("}");
                    let g = "{\"reminders\":{"@;
                    let h = ",\"next_id\":"@;
                    let z = "}"@;
                    let l = spec_enc_reminder_list(w.reminders);
                    let nid = spec_decimal(w.next_id as nat);
                    let x1 = z + (h + (nid + z));
                    assert(p1 as int == g.len());
                    assert(v@.skip(p1 as int) == l + x1);
                    if w.reminders.len() == 0 {
                        assert(l == Seq::<char>::empty());
                        assert(l + x1 =~= x1);
                        assert(v@[p1 as int] == v@.skip(p1 as int)[0]);
                        assert(v@[p1 as int] == '}');
                        assert(p1 < v@.len());
                        assert(p as int == p1 + 1);
                        assert(reminders@ =~= Seq::<Reminder>::empty());
                    } else {
                        lemma_rem_list_head(v@, p1 as int, w.reminders, x1);
                        let e0 = spec_enc_reminder(w.reminders[0]);
                        let tail: Seq<char> = if w.reminders.len() == 1 {
                            x1
                        } else {
                            ","@ + (spec_enc_reminder_list(w.reminders.drop_first()) + x1)
                        };
                        assert(v@.skip(p1 as int) == e0 + tail);
                        lemma_enc_reminder_starts_quote(w.reminders[0]);
                        reveal_strlit("\"");
                        assert(v@.skip(p1 as int)[0] == v@[p1 as int]);
                        assert((e0 + tail)[0] == e0[0]);
                        assert(v@[p1 as int] == '"');
                        assert(x1.len() > 0 && x1[0] == '}');
                        assert(w.reminders.len() > 0);
                        assert(v@.skip(p1 as int) == spec_enc_reminder_list(w.reminders) + x1);
                    }
                    assert(reminders@.len() == w.reminders.len());
                    assert forall|i: int| 0 <= i < w.reminders.len() implies reminder_equiv(
                        #[trigger] reminders@[i],
                        w.reminders[i],
                    ) by {
                        if w.reminders.len() > 0 {
                            assert(reminder_equiv(reminders@[0 + i], w.reminders[i]));
                        }
                    }
                    assert(p as int == g.len() + l.len() + 1);
                    assert(p3 as int == p + h.len());
                    assert(v@.skip(p3 as int) == nid + z);
                    assert(z.len() > 0 && !is_digit(z[0]));
                    assert(false);
                }
            }
            return None;
            },
        };
        if nid64 > 4_294_967_295u64 {
            proof {
                if exists|w0: StoreView| w0.wf() && spec_enc_store(w0) == text@ {
                    let w = choose|w0: StoreView| w0.wf() && spec_enc_store(w0) == text@;
                    lemma_store_waypoints(v@, w);
                    reveal_strlit("{\"reminders\":{");
                    reveal_strlit(",\"next_id\":");
                    reveal_strlit("}");
                    let g = "{\"reminders\":{"@;
                    let h = ",\"next_id\":"@;
                    let z = "}"@;
                    let l = spec_enc_reminder_list(w.reminders);
                    let nid = spec_decimal(w.next_id as nat);
                    let x1 = z + (h + (nid + z));
                    assert(p1 as int == g.len());
                    assert(v@.skip(p1 as int) == l + x1);
                    if w.reminders.len() == 0 {
                        assert(l == Seq::<char>::empty());
                        assert(l + x1 =~= x1);
                        assert(v@[p1 as int] == v@.skip(p1 as int)[0]);
                        assert(v@[p1 as int] == '}');
                        assert(p1 < v@.len());
                        assert(p as int == p1 + 1);
                        assert(reminders@ =~= Seq::<Reminder>::empty());
                    } else {
                        lemma_rem_list_head(v@, p1 as int, w.reminders, x1);
                        let e0 = spec_enc_reminder(w.reminders[0]);
                        let tail: Seq<char> = if w.reminders.len() == 1 {
                            x1
                        } else {
                            ","@ + (spec_enc_reminder_list(w.reminders.drop_first()) + x1)
                        };
                        assert(v@.skip(p1 as int) == e0 + tail);
                        lemma_enc_reminder_starts_quote(w.reminders[0]);
                        reveal_strlit("\"");
                        assert(v@.skip(p1 as int)[0] == v@[p1 as int]);
                        assert((e0 + tail)[0] == e0[0]);
                        assert(v@[p1 as int] == '"');
                        assert(x1.len() > 0 && x1[0] == '}');
                        assert(w.reminders.len() > 0);
                        assert(v@.skip(p1 as int) == spec_enc_reminder_list(w.reminders) + x1);
                    }
                    assert(reminders@.len() == w.reminders.len());
                    assert forall|i: int| 0 <= i < w.reminders.len() implies reminder_equiv(
                        #[trigger] reminders@[i],
                        w.reminders[i],
                    ) by {
                        if w.reminders.len() > 0 {
                            assert(reminder_equiv(reminders@[0 + i], w.reminders[i]));
                        }
                    }
                    assert(p as int == g.len() + l.len() + 1);
                    assert(p3 as int == p + h.len());
                    assert(v@.skip(p3 as int) == nid + z);
                    assert(z.len() > 0 && !is_digit(z[0]));
                    assert(nid64 == (w.next_id as nat) as u64);
                    assert(p4 as int == p3 + nid.len());
                    assert((w.next_id as nat) as u64 <= 4_294_967_295u64);
                    assert(false);
                }
            }
            return None;
        }
        let p5 = match expect_lit(&v, p4, "}") {
            Some(q) => q,
            None => {
            proof {
                if exists|w0: StoreView| w0.wf() && spec_enc_store(w0) == text@ {
                    let w = choose|w0: StoreView| w0.wf() && spec_enc_store(w0) == text@;
                    lemma_store_waypoints(v@, w);
                    reveal_strlit("{\"reminders\":{");
                    reveal_strlit(",\"next_id\":");
                    reveal_strlit("}");
                    let g = "{\"reminders\":{"@;
                    let h = ",\"next_id\":"@;
                    let z = "}"@;
                    let l = spec_enc_reminder_list(w.reminders);
                    let nid = spec_decimal(w.next_id as nat);
                    let x1 = z + (h + (nid + z));
                    assert(p1 as int == g.len());
                    assert(v@.skip(p1 as int) == l + x1);
                    if w.reminders.len() == 0 {
                        assert(l == Seq::<char>::empty());
                        assert(l + x1 =~= x1);
                        assert(v@[p1 as int] == v@.skip(p1 as int)[0]);
                        assert(v@[p1 as int] == '}');
                        assert(p1 < v@.len());
                        assert(p as int == p1 + 1);
                        assert(reminders@ =~= Seq::<Reminder>::empty());
                    } else {
                        lemma_rem_list_head(v@, p1 as int, w.reminders, x1);
                        let e0 = spec_enc_reminder(w.reminders[0]);
                        let tail: Seq<char> = if w.reminders.len() == 1 {
                            x1
                        } else {
                            ","@ + (spec_enc_reminder_list(w.reminders.drop_first()) + x1)
                        };
                        assert(v@.skip(p1 as int) == e0 + tail);
                        lemma_enc_reminder_starts_quote(w.reminders[0]);
                        reveal_strlit("\"");
                        assert(v@.skip(p1 as int)[0] == v@[p1 as int]);
                        assert((e0 + tail)[0] == e0[0]);
                        assert(v@[p1 as int] == '"');
                        assert(x1.len() > 0 && x1[0] == '}');
                        assert(w.reminders.len() > 0);
                        assert(v@.skip(p1 as int) == spec_enc_reminder_list(w.reminders) + x1);
                    }
                    assert(reminders@.len() == w.reminders.len());
                    assert forall|i: int| 0 <= i < w.reminders.len() implies reminder_equiv(
                        #[trigger] reminders@[i],
                        w.reminders[i],
                    ) by {
                        if w.reminders.len() > 0 {
                            assert(reminder_equiv(reminders@[0 + i], w.reminders[i]));
                        }
                    }
                    assert(p as int == g.len() + l.len() + 1);
                    assert(p3 as int == p + h.len());
                    assert(v@.skip(p3 as int) == nid + z);
                    assert(z.len() > 0 && !is_digit(z[0]));
                    assert(nid64 == (w.next_id as nat) as u64);
                    assert(p4 as int == p3 + nid.len());
                    assert(false);
                }
            }
            return None;
            },
        };
        if p5 != len {
            proof {
                if exists|w0: StoreView| w0.wf() && spec_enc_store(w0) == text@ {
                    let w = choose|w0: StoreView| w0.wf() && spec_enc_store(w0) == text@;
                    lemma_store_waypoints(v@, w);
                    reveal_strlit("{\"reminders\":{");
                    reveal_strlit(",\"next_id\":");
                    reveal_strlit("}");
                    let g = "{\"reminders\":{"@;
                    let h = ",\"next_id\":"@;
                    let z = "}"@;
                    let l = spec_enc_reminder_list(w.reminders);
                    let nid = spec_decimal(w.next_id as nat);
                    let x1 = z + (h + (nid + z));
                    assert(p1 as int == g.len());
                    assert(v@.skip(p1 as int) == l + x1);
                    if w.reminders.len() == 0 {
                        assert(l == Seq::<char>::empty());
                        assert(l + x1 =~= x1);
                        assert(v@[p1 as int] == v@.skip(p1 as int)[0]);
                        assert(v@[p1 as int] == '}');
                        assert(p1 < v@.len());
                        assert(p as int == p1 + 1);
                        assert(reminders@ =~= Seq::<Reminder>::empty());
                    } else {
                        lemma_rem_list_head(v@, p1 as int, w.reminders, x1);
                        let e0 = spec_enc_reminder(w.reminders[0]);
                        let tail: Seq<char> = if w.reminders.len() == 1 {
                            x1
                        } else {
                            ","@ + (spec_enc_reminder_list(w.reminders.drop_first()) + x1)
                        };
                        assert(v@.skip(p1 as int) == e0 + tail);
                        lemma_enc_reminder_starts_quote(w.reminders[0]);
                        reveal_strlit("\"");
                        assert(v@.skip(p1 as int)[0] == v@[p1 as int]);
                        assert((e0 + tail)[0] == e0[0]);
                        assert(v@[p1 as int] == '"');
                        assert(x1.len() > 0 && x1[0] == '}');
                        assert(w.reminders.len() > 0);
                        assert(v@.skip(p1 as int) == spec_enc_reminder_list(w.reminders) + x1);
                    }
                    assert(reminders@.len() == w.reminders.len());
                    assert forall|i: int| 0 <= i < w.reminders.len() implies reminder_equiv(
                        #[trigger] reminders@[i],
                        w.reminders[i],
                    ) by {
                        if w.reminders.len() > 0 {
                            assert(reminder_equiv(reminders@[0 + i], w.reminders[i]));
                        }
                    }
                    assert(p as int == g.len() + l.len() + 1);
                    assert(p3 as int == p + h.len());
                    assert(v@.skip(p3 as int) == nid + z);
                    assert(z.len() > 0 && !is_digit(z[0]));
                    assert(nid64 == (w.next_id as nat) as u64);
                    assert(p4 as int == p3 + nid.len());
                    assert(p5 as int == p4 + 1);
                    assert(p5 as int == v@.len());
                    assert(false);
                }
            }
            return None;
        }
        let ghost parsed = StoreView { reminders: reminders@, next_id: nid64 as u32 };
        let store = match ReminderStore::from_parts(reminders, nid64 as u32) {
            Some(s) => s,
            None => {
            proof {
                if exists|w0: StoreView| w0.wf() && spec_enc_store(w0) == text@ {
                    let w = choose|w0: StoreView| w0.wf() && spec_enc_store(w0) == text@;
                    lemma_store_waypoints(v@, w);
                    reveal_strlit("{\"reminders\":{");
                    reveal_strlit(",\"next_id\":");
                    reveal_strlit("}");
                    let g = "{\"reminders\":{"@;
                    let h = ",\"next_id\":"@;
                    let z = "}"@;
                    let l = spec_enc_reminder_list(w.reminders);
                    let nid = spec_decimal(w.next_id as nat);
                    let x1 = z + (h + (nid + z));
                    assert(p1 as int == g.len());
                    assert(v@.skip(p1 as int) == l + x1);
                    if w.reminders.len() == 0 {
                        assert(l == Seq::<char>::empty());
                        assert(l + x1 =~= x1);
                        assert(v@[p1 as int] == v@.skip(p1 as int)[0]);
                        assert(v@[p1 as int] == '}');
                        assert(p1 < v@.len());
                        assert(p as int == p1 + 1);
                        assert(reminders@ =~= Seq::<Reminder>::empty());
                    } else {
                        lemma_rem_list_head(v@, p1 as int, w.reminders, x1);
                        let e0 = spec_enc_reminder(w.reminders[0]);
                        let tail: Seq<char> = if w.reminders.len() == 1 {
                            x1
                        } else {
                            ","@ + (spec_enc_reminder_list(w.reminders.drop_first()) + x1)
                        };
                        assert(v@.skip(p1 as int) == e0 + tail);
                        lemma_enc_reminder_starts_quote(w.reminders[0]);
                        reveal_strlit("\"");
                        assert(v@.skip(p1 as int)[0] == v@[p1 as int]);
                        assert((e0 + tail)[0] == e0[0]);
                        assert(v@[p1 as int] == '"');
                        assert(x1.len() > 0 && x1[0] == '}');
                        assert(w.reminders.len() > 0);
                        assert(v@.skip(p1 as int) == spec_enc_reminder_list(w.reminders) + x1);
                    }
                    assert(reminders@.len() == w.reminders.len());
                    assert forall|i: int| 0 <= i < w.reminders.len() implies reminder_equiv(
                        #[trigger] reminders@[i],
                        w.reminders[i],
                    ) by {
                        if w.reminders.len() > 0 {
                            assert(reminder_equiv(reminders@[0 + i], w.reminders[i]));
                        }
                    }
                    assert(p as int == g.len() + l.len() + 1);
                    assert(p3 as int == p + h.len());
                    assert(v@.skip(p3 as int) == nid + z);
                    assert(z.len() > 0 && !is_digit(z[0]));
                    assert(nid64 == (w.next_id as nat) as u64);
                    assert(p4 as int == p3 + nid.len());
                    assert(p5 as int == p4 + 1);
                    assert(p5 as int == v@.len());
                    assert(parsed.wf()) by {
                        assert(nid64 as u32 == w.next_id);
                        assert forall|i: int, j: int|
                            0 <= i < j < parsed.reminders.len() implies (#[trigger] parsed.reminders[i]).id != (
                        #[trigger] parsed.reminders[j]).id by {
                            assert(reminder_equiv(parsed.reminders[i], w.reminders[i]));
                            assert(reminder_equiv(parsed.reminders[j], w.reminders[j]));
                            assert(w.reminders[i].id != w.reminders[j].id);
                        }
                        assert forall|i: int| 0 <= i < parsed.reminders.len() implies (
                        #[trigger] parsed.reminders[i]).id < parsed.next_id by {
                            assert(reminder_equiv(parsed.reminders[i], w.reminders[i]));
                            assert(w.reminders[i].id < w.next_id);
                        }
                        assert forall|i: int|
                            0 <= i < parsed.reminders.len() implies (!(
                        #[trigger] parsed.reminders[i]).completed ==> parsed.reminders[i].review_count
                            < crate::store::COMPLETION_REVIEW_COUNT) by {
                            assert(reminder_equiv(parsed.reminders[i], w.reminders[i]));
                            assert(!w.reminders[i].completed ==> w.reminders[i].review_count
                                < crate::store::COMPLETION_REVIEW_COUNT);
                        }
                    }
                    assert(false);
                }
            }
            return None;
            },
        };
        let out = store.to_json();
        let text_copy = String::from_str(text);
        if out == text_copy {
            Some(store)
        } else {
            proof {
                if exists|w0: StoreView| w0.wf() && spec_enc_store(w0) == text@ {
                    let w = choose|w0: StoreView| w0.wf() && spec_enc_store(w0) == text@;
                    lemma_store_waypoints(v@, w);
                    reveal_strlit("{\"reminders\":{");
                    reveal_strlit(",\"next_id\":");
                    reveal_strlit("}");
                    let g = "{\"reminders\":{"@;
                    let h = ",\"next_id\":"@;
                    let z = "}"@;
                    let l = spec_enc_reminder_list(w.reminders);
                    let nid = spec_decimal(w.next_id as nat);
                    let x1 = z + (h + (nid + z));
                    assert(p1 as int == g.len());
                    assert(v@.skip(p1 as int) == l + x1);
                    if w.reminders.len() == 0 {
                        assert(l == Seq::<char>::empty());
                        assert(l + x1 =~= x1);
                        assert(v@[p1 as int] == v@.skip(p1 as int)[0]);
                        assert(v@[p1 as int] == '}');
                        assert(p1 < v@.len());
                        assert(p as int == p1 + 1);
                        assert(reminders@ =~= Seq::<Reminder>::empty());
                    } else {
                        lemma_rem_list_head(v@, p1 as int, w.reminders, x1);
                        let e0 = spec_enc_reminder(w.reminders[0]);
                        let tail: Seq<char> = if w.reminders.len() == 1 {
                            x1
                        } else {
                            ","@ + (spec_enc_reminder_list(w.reminders.drop_first()) + x1)
                        };
                        assert(v@.skip(p1 as int) == e0 + tail);
                        lemma_enc_reminder_starts_quote(w.reminders[0]);
                        reveal_strlit("\"");
                        assert(v@.skip(p1 as int)[0] == v@[p1 as int]);
                        assert((e0 + tail)[0] == e0[0]);
                        assert(v@[p1 as int] == '"');
                        assert(x1.len() > 0 && x1[0] == '}');
                        assert(w.reminders.len() > 0);
                        assert(v@.skip(p1 as int) == spec_enc_reminder_list(w.reminders) + x1);
                    }
                    assert(reminders@.len() == w.reminders.len());
                    assert forall|i: int| 0 <= i < w.reminders.len() implies reminder_equiv(
                        #[trigger] reminders@[i],
                        w.reminders[i],
                    ) by {
                        if w.reminders.len() > 0 {
                            assert(reminder_equiv(reminders@[0 + i], w.reminders[i]));
                        }
                    }
                    assert(p as int == g.len() + l.len() + 1);
                    assert(p3 as int == p + h.len());
                    assert(v@.skip(p3 as int) == nid + z);
                    assert(z.len() > 0 && !is_digit(z[0]));
                    assert(nid64 == (w.next_id as nat) as u64);
                    assert(p4 as int == p3 + nid.len());
                    assert(p5 as int == p4 + 1);
                    assert(p5 as int == v@.len());
                    assert(store@.reminders == reminders@);
                    assert(store@.next_id == nid64 as u32);
                    assert(nid64 as u32 == w.next_id);
                    lemma_enc_list_equiv(store@.reminders, w.reminders);
                    assert(spec_enc_store(store@) == spec_enc_store(w));
                    assert(out@ == text@);
                    assert(text_copy@ == text@);
                    assert(false);
                }
            }
            return None;
        }
    }}

pub open spec fn is_digit(c: char) -> bool {
    48 <= c as u32 <= 57
}

proof fn lemma_decimal_digits(n: nat)
    ensures
        spec_decimal(n).len() >= 1,
        n < 10 <==> spec_decimal(n).len() == 1,
        forall|i: int| 0 <= i < spec_decimal(n).len() ==> is_digit(#[trigger] spec_decimal(n)[i]),
    decreases n,
{
    if n < 10 {
        assert(spec_decimal(n) == seq![crate::format::spec_digit_char(n as int)]);
    } else {
        lemma_decimal_digits(n / 10);
        let d = spec_decimal(n);
        let dp = spec_decimal(n / 10);
        assert(d == dp.push(crate::format::spec_digit_char((n % 10) as int)));
        assert forall|i: int| 0 <= i < d.len() implies is_digit(#[trigger] d[i]) by {
            if i < d.len() - 1 {
                assert(d[i] == dp[i]);
            } else {
                assert(d[i] == crate::format::spec_digit_char((n % 10) as int));
            }
        }
    }
}

proof fn lemma_decimal_injective(n1: nat, n2: nat)
    requires
        spec_decimal(n1) == spec_decimal(n2),
    ensures
        n1 == n2,
    decreases n1,
{
    lemma_decimal_digits(n1);
    lemma_decimal_digits(n2);
    if n1 < 10 && n2 < 10 {
        assert(spec_decimal(n1) == seq![crate::format::spec_digit_char(n1 as int)]);
        assert(spec_decimal(n2) == seq![crate::format::spec_digit_char(n2 as int)]);
        assert(seq![crate::format::spec_digit_char(n1 as int)][0] == crate::format::spec_digit_char(
            n1 as int,
        ));
        assert(seq![crate::format::spec_digit_char(n2 as int)][0] == crate::format::spec_digit_char(
            n2 as int,
        ));
        assert(crate::format::spec_digit_char(n1 as int) == crate::format::spec_digit_char(
            n2 as int,
        ));
    } else if n1 >= 10 && n2 >= 10 {
        let d1 = spec_decimal(n1);
        let d2 = spec_decimal(n2);
        let p1 = spec_decimal(n1 / 10);
        let p2 = spec_decimal(n2 / 10);
        assert(d1 == p1.push(crate::format::spec_digit_char((n1 % 10) as int)));
        assert(d2 == p2.push(crate::format::spec_digit_char((n2 % 10) as int)));
        assert(d1.last() == crate::format::spec_digit_char((n1 % 10) as int));
        assert(d2.last() == crate::format::spec_digit_char((n2 % 10) as int));
        assert(n1 % 10 == n2 % 10);
        assert(p1 =~= d1.drop_last());
        assert(p2 =~= d2.drop_last());
        lemma_decimal_injective(n1 / 10, n2 / 10);
        assert(n1 == (n1 / 10) * 10 + n1 % 10);
        assert(n2 == (n2 / 10) * 10 + n2 % 10);
    }
}

/// Two decimal runs followed by non-digits decompose uniquely.
proof fn lemma_decimal_prefix(n1: nat, n2: nat, r1: Seq<char>, r2: Seq<char>)
    requires
        spec_decimal(n1) + r1 == spec_decimal(n2) + r2,
        r1.len() > 0 ==> !is_digit(r1[0]),
        r2.len() > 0 ==> !is_digit(r2[0]),
    ensures
        n1 == n2,
        r1 == r2,
{
    lemma_decimal_digits(n1);
    lemma_decimal_digits(n2);
    let d1 = spec_decimal(n1);
    let d2 = spec_decimal(n2);
    let len1 = d1.len() as int;
    let len2 = d2.len() as int;
    assert((d1 + r1).len() == len1 + r1.len());
    assert((d2 + r2).len() == len2 + r2.len());
    assert(len1 + r1.len() == len2 + r2.len());
    if len1 < len2 {
        assert(r1.len() > 0);
        assert((d1 + r1)[len1] == r1[0]);
        assert((d2 + r2)[len1] == d2[len1]);
        assert(is_digit(d2[len1]));
        assert(false);
    } else if len2 < len1 {
        assert(r2.len() > 0);
        assert((d2 + r2)[len2] == r2[0]);
        assert((d1 + r1)[len2] == d1[len2]);
        assert(is_digit(d1[len2]));
        assert(false);
    } else {
        assert(d1 =~= d2) by {
            assert forall|i: int| 0 <= i < len1 implies d1[i] == d2[i] by {
                assert((d1 + r1)[i] == d1[i]);
                assert((d2 + r2)[i] == d2[i]);
            }
        }
        lemma_decimal_injective(n1, n2);
        assert(r1 =~= r2) by {
            assert forall|i: int| 0 <= i < r1.len() implies r1[i] == r2[i] by {
                assert((d1 + r1)[len1 + i] == r1[i]);
                assert((d2 + r2)[len1 + i] == r2[i]);
            }
        }
    }
}

/// Characters with the same code point are the same character.
proof fn lemma_char_code_point_injective(c1: char, c2: char)
    requires
        c1 as u32 == c2 as u32,
    ensures
        c1 == c2,
{
}

/// Common prefixes strip off.
proof fn lemma_strip_prefix(a: Seq<char>, r1: Seq<char>, r2: Seq<char>)
    requires
        a + r1 == a + r2,
    ensures
        r1 == r2,
{
    assert((a + r1).len() == a.len() + r1.len());
    assert((a + r2).len() == a.len() + r2.len());
    assert(r1.len() == r2.len());
    assert(r1 =~= r2) by {
        assert forall|i: int| 0 <= i < r1.len() implies r1[i] == r2[i] by {
            assert((a + r1)[a.len() + i] == r1[i]);
            assert((a + r2)[a.len() + i] == r2[i]);
        }
    }
}

/// Two signed decimal runs followed by non-digit, non-sign characters
/// decompose uniquely.
proof fn lemma_enc_int_prefix(n1: int, n2: int, r1: Seq<char>, r2: Seq<char>)
    requires
        spec_enc_int(n1) + r1 == spec_enc_int(n2) + r2,
        r1.len() > 0 ==> !is_digit(r1[0]) && r1[0] != '-',
        r2.len() > 0 ==> !is_digit(r2[0]) && r2[0] != '-',
    ensures
        n1 == n2,
        r1 == r2,
{
    reveal_strlit("-");
    lemma_decimal_digits((if n1 < 0 {
        -n1
    } else {
        n1
    }) as nat);
    lemma_decimal_digits((if n2 < 0 {
        -n2
    } else {
        n2
    }) as nat);
    if n1 >= 0 && n2 >= 0 {
        lemma_decimal_prefix(n1 as nat, n2 as nat, r1, r2);
    } else if n1 < 0 && n2 < 0 {
        let d1 = spec_decimal((-n1) as nat);
        let d2 = spec_decimal((-n2) as nat);
        assert(("-"@ + d1) + r1 =~= "-"@ + (d1 + r1));
        assert(("-"@ + d2) + r2 =~= "-"@ + (d2 + r2));
        lemma_strip_prefix("-"@, d1 + r1, d2 + r2);
        lemma_decimal_prefix((-n1) as nat, (-n2) as nat, r1, r2);
    } else if n1 >= 0 && n2 < 0 {
        let d1 = spec_decimal(n1 as nat);
        assert((d1 + r1)[0] == d1[0]);
        assert(is_digit(d1[0]));
        let d2 = spec_decimal((-n2) as nat);
        assert((("-"@ + d2) + r2)[0] == '-');
        assert(false);
    } else {
        let d2 = spec_decimal(n2 as nat);
        assert((d2 + r2)[0] == d2[0]);
        assert(is_digit(d2[0]));
        let d1 = spec_decimal((-n1) as nat);
        assert((("-"@ + d1) + r1)[0] == '-');
        assert(false);
    }
}

/// Two encoded timestamps followed by anything decompose uniquely.
proof fn lemma_enc_timestamp_prefix(t1: Timestamp, t2: Timestamp, r1: Seq<char>, r2: Seq<char>)
    requires
        spec_enc_timestamp(t1) + r1 == spec_enc_timestamp(t2) + r2,
    ensures
        t1 == t2,
        r1 == r2,
{
    reveal_strlit("{\"seconds\":");
    reveal_strlit(",\"offset_seconds\":");
    reveal_strlit("}");
    let a = "{\"seconds\":"@;
    let b = ",\"offset_seconds\":"@;
    let z = "}"@;
    let s1 = spec_enc_int(t1.seconds as int);
    let s2 = spec_enc_int(t2.seconds as int);
    let o1 = spec_enc_int(t1.offset_seconds as int);
    let o2 = spec_enc_int(t2.offset_seconds as int);
    assert(spec_enc_timestamp(t1) + r1 =~= a + (s1 + (b + (o1 + (z + r1)))));
    assert(spec_enc_timestamp(t2) + r2 =~= a + (s2 + (b + (o2 + (z + r2)))));
    lemma_strip_prefix(a, s1 + (b + (o1 + (z + r1))), s2 + (b + (o2 + (z + r2))));
    assert((b + (o1 + (z + r1)))[0] == ',');
    assert((b + (o2 + (z + r2)))[0] == ',');
    lemma_enc_int_prefix(
        t1.seconds as int,
        t2.seconds as int,
        b + (o1 + (z + r1)),
        b + (o2 + (z + r2)),
    );
    lemma_strip_prefix(b, o1 + (z + r1), o2 + (z + r2));
    assert((z + r1)[0] == '}');
    assert((z + r2)[0] == '}');
    lemma_enc_int_prefix(t1.offset_seconds as int, t2.offset_seconds as int, z + r1, z + r2);
    lemma_strip_prefix(z, r1, r2);
}

/// Two encoded code-point lists, each closed by `]`, decompose uniquely
/// into equal character sequences.
proof fn lemma_enc_cp_list_prefix(s1: Seq<char>, s2: Seq<char>, r1: Seq<char>, r2: Seq<char>)
    requires
        spec_enc_cp_list(s1) + ("]"@ + r1) == spec_enc_cp_list(s2) + ("]"@ + r2),
    ensures
        s1 == s2,
        r1 == r2,
    decreases s1.len(),
{
    reveal_strlit("]");
    reveal_strlit(",");
    if s1.len() == 0 && s2.len() == 0 {
        lemma_strip_prefix("]"@, r1, r2);
        assert(s1 =~= s2);
    } else if s1.len() == 0 {
        lemma_decimal_digits((s2[0] as u32) as nat);
        let d2 = spec_decimal((s2[0] as u32) as nat);
        assert((spec_enc_cp_list(s1) + ("]"@ + r1))[0] == ']');
        assert((spec_enc_cp_list(s2) + ("]"@ + r2))[0] == d2[0]);
        assert(is_digit(d2[0]));
        assert(false);
    } else if s2.len() == 0 {
        lemma_decimal_digits((s1[0] as u32) as nat);
        let d1 = spec_decimal((s1[0] as u32) as nat);
        assert((spec_enc_cp_list(s2) + ("]"@ + r2))[0] == ']');
        assert((spec_enc_cp_list(s1) + ("]"@ + r1))[0] == d1[0]);
        assert(is_digit(d1[0]));
        assert(false);
    } else {
        let d1 = spec_decimal((s1[0] as u32) as nat);
        let d2 = spec_decimal((s2[0] as u32) as nat);
        let tail1: Seq<char> = if s1.len() == 1 {
            "]"@ + r1
        } else {
            ","@ + (spec_enc_cp_list(s1.drop_first()) + ("]"@ + r1))
        };
        let tail2: Seq<char> = if s2.len() == 1 {
            "]"@ + r2
        } else {
            ","@ + (spec_enc_cp_list(s2.drop_first()) + ("]"@ + r2))
        };
        assert(spec_enc_cp_list(s1) + ("]"@ + r1) =~= d1 + tail1);
        assert(spec_enc_cp_list(s2) + ("]"@ + r2) =~= d2 + tail2);
        assert(tail1[0] == ']' || tail1[0] == ',');
        assert(tail2[0] == ']' || tail2[0] == ',');
        lemma_decimal_prefix((s1[0] as u32) as nat, (s2[0] as u32) as nat, tail1, tail2);
        let c1 = s1[0];
        let c2 = s2[0];
        assert(c1 as u32 == c2 as u32);
        lemma_char_code_point_injective(c1, c2);
        assert(s1[0] == s2[0]);
        if s1.len() == 1 && s2.len() == 1 {
            lemma_strip_prefix("]"@, r1, r2);
            assert(s1 =~= s2);
        } else if s1.len() == 1 {
            assert(tail1[0] == ']' && tail2[0] == ',');
            assert(false);
        } else if s2.len() == 1 {
            assert(tail1[0] == ',' && tail2[0] == ']');
            assert(false);
        } else {
            lemma_strip_prefix(
                ","@,
                spec_enc_cp_list(s1.drop_first()) + ("]"@ + r1),
                spec_enc_cp_list(s2.drop_first()) + ("]"@ + r2),
            );
            lemma_enc_cp_list_prefix(s1.drop_first(), s2.drop_first(), r1, r2);
            assert(s1 =~= s2) by {
                assert forall|i: int| 0 <= i < s1.len() implies s1[i] == s2[i] by {
                    if i > 0 {
                        assert(s1[i] == s1.drop_first()[i - 1]);
                        assert(s2[i] == s2.drop_first()[i - 1]);
                    }
                }
            }
        }
    }
}

/// Reminders that carry the same fields, with content compared as text.
pub open spec fn reminder_equiv(r1: Reminder, r2: Reminder) -> bool {
    &&& r1.id == r2.id
    &&& r1.content@ == r2.content@
    &&& r1.created_at == r2.created_at
    &&& r1.next_review == r2.next_review
    &&& r1.review_count == r2.review_count
    &&& r1.completed == r2.completed
}

/// Stores that hold identical reminders and the same id counter.
pub open spec fn store_equiv(v1: StoreView, v2: StoreView) -> bool {
    &&& v1.next_id == v2.next_id
    &&& v1.reminders.len() == v2.reminders.len()
    &&& forall|i: int|
        0 <= i < v1.reminders.len() ==> reminder_equiv(
            #[trigger] v1.reminders[i],
            #[trigger] v2.reminders[i],
        )
}

/// The encoding of one record followed by `r`, grouped head-first.
spec fn rem_nested(x: Reminder, r: Seq<char>) -> Seq<char> {
    let a = "}"@ + r;
    let b = (if x.completed {
        "true"@
    } else {
        "false"@
    }) + a;
    let c = ",\"completed\":"@ + b;
    let d = spec_decimal(x.review_count as nat) + c;
    let e = ",\"review_count\":"@ + d;
    let f = spec_enc_timestamp(x.next_review) + e;
    let g = ",\"next_review\":"@ + f;
    let h = spec_enc_timestamp(x.created_at) + g;
    let i = ",\"created_at\":"@ + h;
    let j = "]"@ + i;
    let k = spec_enc_cp_list(x.content@) + j;
    let m = "["@ + k;
    let o = ",\"content\":"@ + m;
    let p = spec_decimal(x.id as nat) + o;
    let q = "\":{\"id\":"@ + p;
    let s = spec_decimal(x.id as nat) + q;
    "\""@ + s
}

/// First half of the regrouping: through the `created_at` timestamp.
#[verifier::rlimit(100)]
proof fn lemma_rem_nested_front(x: Reminder, r: Seq<char>)
    ensures
        ({
        let q = "\""@;
        let la = "\":{\"id\":"@;
        let lb = ",\"content\":"@;
        let lbr = "["@;
        let lc = ",\"created_at\":"@;
        let ld = ",\"next_review\":"@;
        let le = ",\"review_count\":"@;
        let lf = ",\"completed\":"@;
        let z = "}"@;
        let boolx: Seq<char> = if x.completed {
            "true"@
        } else {
            "false"@
        };
        let di = spec_decimal(x.id as nat);
        let cp = spec_enc_cp_list(x.content@);
        let tsa = spec_enc_timestamp(x.created_at);
        let tsb = spec_enc_timestamp(x.next_review);
        let n = spec_decimal(x.review_count as nat);
        let cont = spec_enc_content(x.content@);
        let a = z + r;
        let b = boolx + a;
        let c = lf + b;
        let d = n + c;
        let e = le + d;
        let f = tsb + e;
        let g = ld + f;
        let h = tsa + g;
        let i = lc + h;
        let j = "]"@ + i;
        let k = cp + j;
        let m = lbr + k;
        let o = lb + m;
        let p = di + o;
        let qq = la + p;
        let s = di + qq;
        let t0 = q + di;
        let t1 = t0 + la;
        let t2 = t1 + di;
        let t3 = t2 + lb;
        let t4 = t3 + cont;
        let t5 = t4 + lc;
        let t6 = t5 + tsa;
        let t7 = t6 + ld;
        let t8 = t7 + tsb;
        let t9 = t8 + le;
        let t10 = t9 + n;
        let t11 = t10 + lf;
        let t12 = t11 + boolx;
    
            spec_enc_reminder(x) + r == t6 + g
        }),
{
    let q = "\""@;
    let la = "\":{\"id\":"@;
    let lb = ",\"content\":"@;
    let lbr = "["@;
    let lc = ",\"created_at\":"@;
    let ld = ",\"next_review\":"@;
    let le = ",\"review_count\":"@;
    let lf = ",\"completed\":"@;
    let z = "}"@;
    let boolx: Seq<char> = if x.completed {
        "true"@
    } else {
        "false"@
    };
    let di = spec_decimal(x.id as nat);
    let cp = spec_enc_cp_list(x.content@);
    let tsa = spec_enc_timestamp(x.created_at);
    let tsb = spec_enc_timestamp(x.next_review);
    let n = spec_decimal(x.review_count as nat);
    let cont = spec_enc_content(x.content@);
    let a = z + r;
    let b = boolx + a;
    let c = lf + b;
    let d = n + c;
    let e = le + d;
    let f = tsb + e;
    let g = ld + f;
    let h = tsa + g;
    let i = lc + h;
    let j = "]"@ + i;
    let k = cp + j;
    let m = lbr + k;
    let o = lb + m;
    let p = di + o;
    let qq = la + p;
    let s = di + qq;
    let t0 = q + di;
    let t1 = t0 + la;
    let t2 = t1 + di;
    let t3 = t2 + lb;
    let t4 = t3 + cont;
    let t5 = t4 + lc;
    let t6 = t5 + tsa;
    let t7 = t6 + ld;
    let t8 = t7 + tsb;
    let t9 = t8 + le;
    let t10 = t9 + n;
    let t11 = t10 + lf;
    let t12 = t11 + boolx;
    assert(spec_enc_reminder(x) == t12 + z);
    assert((t12 + z) + r =~= t12 + a);
    assert(t12 + a =~= t11 + b);
    assert(t11 + b =~= t10 + c);
    assert(t10 + c =~= t9 + d);
    assert(t9 + d =~= t8 + e);
    assert(t8 + e =~= t7 + f);
    assert(t7 + f =~= t6 + g);
}

#[verifier::rlimit(100)]
proof fn lemma_rem_nested(x: Reminder, r: Seq<char>)
    ensures
        spec_enc_reminder(x) + r == rem_nested(x, r),
{
    lemma_rem_nested_front(x, r);
    let q = "\""@;
    let la = "\":{\"id\":"@;
    let lb = ",\"content\":"@;
    let lbr = "["@;
    let lc = ",\"created_at\":"@;
    let ld = ",\"next_review\":"@;
    let le = ",\"review_count\":"@;
    let lf = ",\"completed\":"@;
    let z = "}"@;
    let boolx: Seq<char> = if x.completed {
        "true"@
    } else {
        "false"@
    };
    let di = spec_decimal(x.id as nat);
    let cp = spec_enc_cp_list(x.content@);
    let tsa = spec_enc_timestamp(x.created_at);
    let tsb = spec_enc_timestamp(x.next_review);
    let n = spec_decimal(x.review_count as nat);
    let cont = spec_enc_content(x.content@);
    let a = z + r;
    let b = boolx + a;
    let c = lf + b;
    let d = n + c;
    let e = le + d;
    let f = tsb + e;
    let g = ld + f;
    let h = tsa + g;
    let i = lc + h;
    let j = "]"@ + i;
    let k = cp + j;
    let m = lbr + k;
    let o = lb + m;
    let p = di + o;
    let qq = la + p;
    let s = di + qq;
    let t0 = q + di;
    let t1 = t0 + la;
    let t2 = t1 + di;
    let t3 = t2 + lb;
    let t4 = t3 + cont;
    let t5 = t4 + lc;
    let t6 = t5 + tsa;
    let t7 = t6 + ld;
    let t8 = t7 + tsb;
    let t9 = t8 + le;
    let t10 = t9 + n;
    let t11 = t10 + lf;
    let t12 = t11 + boolx;
    assert(spec_enc_reminder(x) + r == t6 + g);
    assert(t6 + g =~= t5 + h);
    assert(t5 + h =~= t4 + i);
    assert(t4 + i =~= t3 + (cont + i));
    assert(cont + i =~= lbr + (cp + ("]"@ + i)));
    assert(t3 + m =~= t2 + o);
    assert(t2 + o =~= t1 + p);
    assert(t1 + p =~= t0 + qq);
    assert(t0 + qq =~= q + s);
    assert(rem_nested(x, r) == q + s);
}

/// Two encoded records followed by anything decompose uniquely.
#[verifier::rlimit(100)]
proof fn lemma_enc_reminder_prefix(x1: Reminder, x2: Reminder, r1: Seq<char>, r2: Seq<char>)
    requires
        spec_enc_reminder(x1) + r1 == spec_enc_reminder(x2) + r2,
    ensures
        reminder_equiv(x1, x2),
        r1 == r2,
{
    reveal_strlit("\"");
    reveal_strlit("\":{\"id\":");
    reveal_strlit(",\"content\":");
    reveal_strlit("[");
    reveal_strlit("]");
    reveal_strlit(",\"created_at\":");
    reveal_strlit(",\"next_review\":");
    reveal_strlit(",\"review_count\":");
    reveal_strlit(",\"completed\":");
    reveal_strlit("true");
    reveal_strlit("false");
    reveal_strlit("}");
    let q = "\""@;
    let la = "\":{\"id\":"@;
    let lb = ",\"content\":"@;
    let lbr = "["@;
    let lc = ",\"created_at\":"@;
    let ld = ",\"next_review\":"@;
    let le = ",\"review_count\":"@;
    let lf = ",\"completed\":"@;
    let z = "}"@;
    let bool1: Seq<char> = if x1.completed { "true"@ } else { "false"@ };
    let bool2: Seq<char> = if x2.completed { "true"@ } else { "false"@ };
    let di1 = spec_decimal(x1.id as nat);
    let di2 = spec_decimal(x2.id as nat);
    let cp1 = spec_enc_cp_list(x1.content@);
    let cp2 = spec_enc_cp_list(x2.content@);
    let ts1a = spec_enc_timestamp(x1.created_at);
    let ts2a = spec_enc_timestamp(x2.created_at);
    let ts1b = spec_enc_timestamp(x1.next_review);
    let ts2b = spec_enc_timestamp(x2.next_review);
    let n1 = spec_decimal(x1.review_count as nat);
    let n2 = spec_decimal(x2.review_count as nat);
    let a1 = z + r1;
    let a2 = z + r2;
    let b1 = bool1 + a1;
    let b2 = bool2 + a2;
    let c1 = lf + b1;
    let c2 = lf + b2;
    let d1 = n1 + c1;
    let d2 = n2 + c2;
    let e1 = le + d1;
    let e2 = le + d2;
    let f1 = ts1b + e1;
    let f2 = ts2b + e2;
    let g1 = ld + f1;
    let g2 = ld + f2;
    let h1 = ts1a + g1;
    let h2 = ts2a + g2;
    let i1 = lc + h1;
    let i2 = lc + h2;
    let j1 = "]"@ + i1;
    let j2 = "]"@ + i2;
    let k1 = cp1 + j1;
    let k2 = cp2 + j2;
    let m1 = lbr + k1;
    let m2 = lbr + k2;
    let o1 = lb + m1;
    let o2 = lb + m2;
    let p1 = di1 + o1;
    let p2 = di2 + o2;
    let q1 = la + p1;
    let q2 = la + p2;
    let s1 = di1 + q1;
    let s2 = di2 + q2;
    let w1 = q + s1;
    let w2 = q + s2;
    lemma_rem_nested(x1, r1);
    lemma_rem_nested(x2, r2);
    assert(rem_nested(x1, r1) == w1);
    assert(rem_nested(x2, r2) == w2);
    lemma_strip_prefix(q, s1, s2);
    assert(q1[0] == '"');
    assert(q2[0] == '"');
    lemma_decimal_prefix(x1.id as nat, x2.id as nat, q1, q2);
    assert(x1.id == x2.id);
    lemma_strip_prefix(la, p1, p2);
    assert(o1[0] == ',');
    assert(o2[0] == ',');
    lemma_decimal_prefix(x1.id as nat, x2.id as nat, o1, o2);
    lemma_strip_prefix(lb, m1, m2);
    lemma_strip_prefix(lbr, k1, k2);
    lemma_enc_cp_list_prefix(x1.content@, x2.content@, i1, i2);
    lemma_strip_prefix(lc, h1, h2);
    lemma_enc_timestamp_prefix(x1.created_at, x2.created_at, g1, g2);
    lemma_strip_prefix(ld, f1, f2);
    lemma_enc_timestamp_prefix(x1.next_review, x2.next_review, e1, e2);
    lemma_strip_prefix(le, d1, d2);
    assert(c1[0] == ',');
    assert(c2[0] == ',');
    lemma_decimal_prefix(x1.review_count as nat, x2.review_count as nat, c1, c2);
    assert(x1.review_count == x2.review_count);
    lemma_strip_prefix(lf, b1, b2);
    if x1.completed != x2.completed {
        assert(b1[0] == b2[0]);
        assert(false);
    }
    assert(bool1 == bool2);
    lemma_strip_prefix(bool1, a1, a2);
    lemma_strip_prefix(z, r1, r2);
}

/// Two encoded record lists, each closed by `}`, decompose uniquely.
#[verifier::rlimit(60)]
proof fn lemma_enc_reminder_list_prefix(
    s1: Seq<Reminder>,
    s2: Seq<Reminder>,
    r1: Seq<char>,
    r2: Seq<char>,
)
    requires
        spec_enc_reminder_list(s1) + ("}"@ + r1) == spec_enc_reminder_list(s2) + ("}"@ + r2),
    ensures
        s1.len() == s2.len(),
        forall|i: int|
            0 <= i < s1.len() ==> reminder_equiv(#[trigger] s1[i], #[trigger] s2[i]),
        r1 == r2,
    decreases s1.len(),
{
    reveal_strlit("}");
    reveal_strlit("\"");
    reveal_strlit(",");
    if s1.len() == 0 && s2.len() == 0 {
        lemma_strip_prefix("}"@, r1, r2);
    } else if s1.len() == 0 {
        assert((spec_enc_reminder_list(s1) + ("}"@ + r1))[0] == '}');
        assert(spec_enc_reminder(s2[0]).len() >= 1 && spec_enc_reminder(s2[0])[0] == '"') by {
            lemma_decimal_digits((s2[0]).id as nat);
        }
        assert((spec_enc_reminder_list(s2) + ("}"@ + r2))[0] == '"');
        assert(false);
    } else if s2.len() == 0 {
        assert((spec_enc_reminder_list(s2) + ("}"@ + r2))[0] == '}');
        assert(spec_enc_reminder(s1[0]).len() >= 1 && spec_enc_reminder(s1[0])[0] == '"') by {
            lemma_decimal_digits((s1[0]).id as nat);
        }
        assert((spec_enc_reminder_list(s1) + ("}"@ + r1))[0] == '"');
        assert(false);
    } else {
        let tail1: Seq<char> = if s1.len() == 1 {
            "}"@ + r1
        } else {
            ","@ + (spec_enc_reminder_list(s1.drop_first()) + ("}"@ + r1))
        };
        let tail2: Seq<char> = if s2.len() == 1 {
            "}"@ + r2
        } else {
            ","@ + (spec_enc_reminder_list(s2.drop_first()) + ("}"@ + r2))
        };
        assert(spec_enc_reminder_list(s1) + ("}"@ + r1) =~= spec_enc_reminder(s1[0]) + tail1);
        assert(spec_enc_reminder_list(s2) + ("}"@ + r2) =~= spec_enc_reminder(s2[0]) + tail2);
        lemma_enc_reminder_prefix(s1[0], s2[0], tail1, tail2);
        if s1.len() == 1 && s2.len() == 1 {
            lemma_strip_prefix("}"@, r1, r2);
        } else if s1.len() == 1 {
            assert(tail1[0] == '}' && tail2[0] == ',');
            assert(false);
        } else if s2.len() == 1 {
            assert(tail1[0] == ',' && tail2[0] == '}');
            assert(false);
        } else {
            lemma_strip_prefix(
                ","@,
                spec_enc_reminder_list(s1.drop_first()) + ("}"@ + r1),
                spec_enc_reminder_list(s2.drop_first()) + ("}"@ + r2),
            );
            lemma_enc_reminder_list_prefix(s1.drop_first(), s2.drop_first(), r1, r2);
            assert forall|i: int| 0 <= i < s1.len() implies reminder_equiv(
                #[trigger] s1[i],
                #[trigger] s2[i],
            ) by {
                if i > 0 {
                    assert(s1[i] == s1.drop_first()[i - 1]);
                    assert(s2[i] == s2.drop_first()[i - 1]);
                    assert(reminder_equiv(s1.drop_first()[i - 1], s2.drop_first()[i - 1]));
                }
            }
        }
    }
}

/// Losslessness of the stored form: two stores with the same stored text
/// hold identical reminders — every field, timestamp offsets included —
/// and the same id counter. Together with `from_json`'s contract, which
/// says a loaded store re-serializes to exactly the loaded text, a load
/// of saved text can only ever yield the saved store.
#[verifier::rlimit(100)]
pub proof fn lemma_enc_store_injective(v1: StoreView, v2: StoreView)
    requires
        spec_enc_store(v1) == spec_enc_store(v2),
    ensures
        store_equiv(v1, v2),
{
    reveal_strlit("{\"reminders\":{");
    reveal_strlit("},\"next_id\":");
    reveal_strlit("}");
    reveal_strlit(",\"next_id\":");
    let g = "{\"reminders\":{"@;
    let big = "},\"next_id\":"@;
    let h = ",\"next_id\":"@;
    let z = "}"@;
    let l1 = spec_enc_reminder_list(v1.reminders);
    let l2 = spec_enc_reminder_list(v2.reminders);
    let n1 = spec_decimal(v1.next_id as nat);
    let n2 = spec_decimal(v2.next_id as nat);
    assert(big =~= z + h);
    let x1 = z + (h + (n1 + z));
    let x2 = z + (h + (n2 + z));
    assert(spec_enc_store(v1) == ((g + l1) + big + n1) + z);
    assert(spec_enc_store(v2) == ((g + l2) + big + n2) + z);
    assert((((g + l1) + big) + n1) + z =~= ((g + l1) + big) + (n1 + z));
    assert(((g + l1) + big) + (n1 + z) =~= (g + l1) + (big + (n1 + z)));
    assert(big + (n1 + z) =~= x1);
    assert((g + l1) + x1 =~= g + (l1 + x1));
    assert(spec_enc_store(v1) == g + (l1 + x1));
    assert((((g + l2) + big) + n2) + z =~= ((g + l2) + big) + (n2 + z));
    assert(((g + l2) + big) + (n2 + z) =~= (g + l2) + (big + (n2 + z)));
    assert(big + (n2 + z) =~= x2);
    assert((g + l2) + x2 =~= g + (l2 + x2));
    assert(spec_enc_store(v2) == g + (l2 + x2));
    lemma_strip_prefix(g, l1 + x1, l2 + x2);
    lemma_enc_reminder_list_prefix(v1.reminders, v2.reminders, h + (n1 + z), h + (n2 + z));
    lemma_strip_prefix(h, n1 + z, n2 + z);
    assert((n1 + z)[n1.len() as int] == '}');
    assert((n2 + z)[n2.len() as int] == '}');
    assert(!is_digit('}')) by {
        assert('}' as u32 == 125);
    }
    lemma_decimal_prefix(v1.next_id as nat, v2.next_id as nat, z, z);
}

} // verus!
