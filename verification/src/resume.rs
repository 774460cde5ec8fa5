//! The durable resume snapshot.
//!
//! A snapshot is one flat JSON object holding the last observed domain, a
//! timestamp and the counters. Writing goes through an exactly specified
//! serializer; reading accepts precisely the serializer's output — whatever
//! parses is the serialization of the returned snapshot, so a damaged or
//! foreign file is treated as absent rather than misread. The atomic
//! write-temp-then-rename step happens outside the library.
use vstd::prelude::*;

use crate::text::{dec_str, chars_of, string_of, eq_chars, append_chars};

verus! {

pub struct ResumeState {
    pub last_domain: String,
    pub updated_at_unix: u64,
    pub enqueued: i64,
    pub checked: i64,
    pub found: i64,
    pub total_planned: i64,
}

/// The hexadecimal digit character for `d`.
pub open spec fn hex_digit(d: int) -> char {
    [' ', '0', '1', '2', '3', '4', '5', '6', '7', '8', '9', 'a', 'b', 'c', 'd', 'e', 'f'][d + 1]
}

/// How one character is written inside a JSON string: quotes and backslashes
/// get a backslash, control characters a `\u00..` escape, the rest stand as
/// they are.
pub open spec fn esc_char(c: char) -> Seq<char> {
    if c == '"' {
        seq!['\\', '"']
    } else if c == '\\' {
        seq!['\\', '\\']
    } else if (c as u32) < 32 {
        seq!['\\', 'u', '0', '0', hex_digit(((c as u32) as int) / 16), hex_digit(
            ((c as u32) as int) % 16,
        )]
    } else {
        seq![c]
    }
}

/// A whole string escaped for JSON.
pub open spec fn json_escape(s: Seq<char>) -> Seq<char>
    decreases s.len(),
{
    if s.len() == 0 {
        Seq::empty()
    } else {
        json_escape(s.drop_last()) + esc_char(s.last())
    }
}

/// A possibly negative integer in decimal.
pub open spec fn int_str(n: int) -> Seq<char> {
    if n >= 0 {
        dec_str(n)
    } else {
        seq!['-'] + dec_str(-n)
    }
}

/// The snapshot's one canonical serialization.
pub open spec fn resume_json(st: ResumeState) -> Seq<char> {
    "{\"last_domain\":\""@ + json_escape(st.last_domain@) + "\",\"updated_at_unix\":"@ + dec_str(
        st.updated_at_unix as int,
    ) + ",\"enqueued\":"@ + int_str(st.enqueued as int) + ",\"checked\":"@ + int_str(
        st.checked as int,
    ) + ",\"found\":"@ + int_str(st.found as int) + ",\"total_planned\":"@ + int_str(
        st.total_planned as int,
    ) + "}"@
}

fn push_escaped(out: &mut Vec<char>, s: &str)
    ensures
        final(out)@ == old(out)@ + json_escape(s@),
{
    let v = chars_of(s);
    let mut i: usize = 0;
    proof {
        assert(old(out)@ + json_escape(s@.take(0)) =~= old(out)@);
    }
    while i < v.len()
        invariant
            i <= v@.len(),
            v@ == s@,
            out@ == old(out)@ + json_escape(s@.take(i as int)),
        decreases v@.len() - i,
    {
        let c = v[i];
        let cu: u32 = c as u32;
        if c == '"' {
            out.push('\\');
            out.push('"');
        } else if c == '\\' {
            out.push('\\');
            out.push('\\');
        } else if cu < 32 {
            out.push('\\');
            out.push('u');
            out.push('0');
            out.push('0');
            let hi = cu / 16;
            let lo = cu % 16;
            out.push(hex_digit_exec(hi));
            out.push(hex_digit_exec(lo));
        } else {
            out.push(c);
        }
        i = i + 1;
        proof {
            assert(s@.take(i as int).drop_last() =~= s@.take(i as int - 1));
            assert(s@.take(i as int).last() == s@[i as int - 1]);
            assert(json_escape(s@.take(i as int)) == json_escape(s@.take(i as int - 1))
                + esc_char(s@[i as int - 1]));
            assert(out@ =~= old(out)@ + json_escape(s@.take(i as int)));
        }
    }
    proof {
        assert(s@.take(s@.len() as int) =~= s@);
    }
}

fn hex_digit_exec(d: u32) -> (r: char)
    requires
        d < 16,
    ensures
        r == hex_digit(d as int),
{
    if d == 0 {
        '0'
    } else if d == 1 {
        '1'
    } else if d == 2 {
        '2'
    } else if d == 3 {
        '3'
    } else if d == 4 {
        '4'
    } else if d == 5 {
        '5'
    } else if d == 6 {
        '6'
    } else if d == 7 {
        '7'
    } else if d == 8 {
        '8'
    } else if d == 9 {
        '9'
    } else if d == 10 {
        'a'
    } else if d == 11 {
        'b'
    } else if d == 12 {
        'c'
    } else if d == 13 {
        'd'
    } else if d == 14 {
        'e'
    } else {
        'f'
    }
}

/// Appends a possibly negative integer in decimal.
fn push_int(out: &mut Vec<char>, n: i64)
    ensures
        final(out)@ == old(out)@ + int_str(n as int),
{
    if n >= 0 {
        let d = crate::text::u64_to_chars(n as u64);
        append_chars(out, &d);
    } else {
        out.push('-');
        let m: u64 = ((-1 - n) as u64) + 1;
        proof {
            assert(m == -(n as int));
        }
        let d = crate::text::u64_to_chars(m);
        append_chars(out, &d);
        proof {
            assert(old(out)@ + (seq!['-'] + dec_str(-(n as int))) =~= (old(out)@.push('-'))
                + dec_str(-(n as int)));
        }
    }
}

/// Serializes a snapshot to its canonical JSON text.
pub fn serialize_resume_state(st: &ResumeState) -> (r: String)
    ensures
        r@ == resume_json(*st),
{
    let mut out: Vec<char> = Vec::new();
    let head = chars_of("{\"last_domain\":\"");
    append_chars(&mut out, &head);
    push_escaped(&mut out, st.last_domain.as_str());
    let sep1 = chars_of("\",\"updated_at_unix\":");
    append_chars(&mut out, &sep1);
    let ts = crate::text::u64_to_chars(st.updated_at_unix);
    append_chars(&mut out, &ts);
    let sep2 = chars_of(",\"enqueued\":");
    append_chars(&mut out, &sep2);
    push_int(&mut out, st.enqueued);
    let sep3 = chars_of(",\"checked\":");
    append_chars(&mut out, &sep3);
    push_int(&mut out, st.checked);
    let sep4 = chars_of(",\"found\":");
    append_chars(&mut out, &sep4);
    push_int(&mut out, st.found);
    let sep5 = chars_of(",\"total_planned\":");
    append_chars(&mut out, &sep5);
    push_int(&mut out, st.total_planned);
    let tail = chars_of("}");
    append_chars(&mut out, &tail);
    proof {
        assert(out@ =~= resume_json(*st));
    }
    string_of(&out)
}

/// Appends one string as a JSON string literal, quoted and escaped.
pub fn push_json_string(out: &mut Vec<char>, s: &str)
    ensures
        final(out)@ == old(out)@ + seq!['"'] + json_escape(s@) + seq!['"'],
{
    out.push('"');
    push_escaped(out, s);
    out.push('"');
    proof {
        assert(out@ =~= old(out)@ + seq!['"'] + json_escape(s@) + seq!['"']);
    }
}

/// Whether the periodic saver should write now: only when a domain has been
/// observed and it differs from the one last written.
pub fn should_save(cur: &str, prev: &str) -> (r: bool)
    ensures
        r == (cur@.len() > 0 && cur@ != prev@),
{
    let cv = chars_of(cur);
    let pv = chars_of(prev);
    if cv.len() == 0 {
        return false;
    }
    !eq_chars(&cv, &pv)
}

/// The cursor a loaded snapshot denotes: the stored domain, trimmed.
pub fn cursor_of(st: &ResumeState) -> (r: String)
    ensures
        r@ == crate::text::trim_spec(st.last_domain@),
{
    crate::text::trim_str(st.last_domain.as_str())
}

/// Seeds the progress counters from a loaded snapshot, as startup does: only
/// when the snapshot carries any progress, and keeping the configured plan
/// when the snapshot has none.
pub fn apply_resume(prog: &mut crate::progress::Progress, st: &ResumeState)
    ensures
        ({
            let seeded = st.enqueued > 0 || st.checked > 0 || st.found > 0 || st.total_planned
                > 0;
            let tp = if st.total_planned > 0 {
                st.total_planned
            } else {
                old(prog).total_planned
            };
            if seeded {
                &&& final(prog).enqueued == st.enqueued
                &&& final(prog).checked == st.checked
                &&& final(prog).found == st.found
                &&& final(prog).total_planned == if tp > 0 {
                    tp
                } else {
                    0i64
                }
            } else {
                *final(prog) == *old(prog)
            }
        }),
{
    if st.enqueued > 0 || st.checked > 0 || st.found > 0 || st.total_planned > 0 {
        let tp = if st.total_planned > 0 {
            st.total_planned
        } else {
            prog.total_planned()
        };
        prog.set_initial(st.enqueued, st.checked, st.found, tp);
    }
}


/// Advances past an expected literal piece of text: succeeds exactly when
/// the literal stands at the given position.
fn eat_lit(v: &Vec<char>, i: usize, lit: &str) -> (r: Option<usize>)
    ensures
        match r {
            Option::Some(j) => i + lit@.len() == j <= v@.len() && v@.subrange(
                i as int,
                j as int,
            ) == lit@,
            Option::None => !(i + lit@.len() <= v@.len() && v@.subrange(
                i as int,
                i as int + lit@.len(),
            ) == lit@),
        },
{
    let lv = chars_of(lit);
    if i > v.len() {
        return None;
    }
    if v.len() - i < lv.len() {
        return None;
    }
    let mut k: usize = 0;
    while k < lv.len()
        invariant
            k <= lv@.len(),
            lv@ == lit@,
            i + lv@.len() <= v@.len(),
            v@.len() <= usize::MAX,
            i <= v@.len(),
            forall|m: int| 0 <= m < k ==> v@[i + m] == lit@[m],
        decreases lv@.len() - k,
    {
        if v[i + k] != lv[k] {
            proof {
                assert(v@.subrange(i as int, i as int + lit@.len())[k as int] == v@[i + k]);
            }
            return None;
        }
        k = k + 1;
    }
    proof {
        assert(v@.subrange(i as int, i as int + lit@.len()) =~= lit@);
    }
    Some(i + lv.len())
}

/// Reads a JSON string body up to its closing quote, undoing the escapes
/// the serializer writes. Over an escape-free body it reads exactly the
/// characters standing before the quote.
fn read_json_string(v: &Vec<char>, start: usize) -> (r: Option<(Vec<char>, usize)>)
    ensures
        match r {
            Option::Some(p) => {
                &&& start <= p.1 < v@.len()
                &&& v@[p.1 as int] == '"'
                &&& (((forall|j: int|
                    start <= j < p.1 ==> (#[trigger] v@[j]) != '"' && v@[j] != '\\') && p.0@
                    == v@.subrange(start as int, p.1 as int)) || (exists|q: int|
                    start <= q < p.1 && (#[trigger] v@[q]) == '\\' && (forall|j: int|
                        start <= j < q ==> (#[trigger] v@[j]) != '"' && v@[j] != '\\')))
            },
            Option::None => forall|e: int|
                (start <= e < v@.len() && (#[trigger] v@[e]) == '"') ==> (exists|j: int|
                    start <= j < e && ((#[trigger] v@[j]) == '"' || v@[j] == '\\')),
        },
{
    let mut out: Vec<char> = Vec::new();
    let mut i: usize = start;
    if i > v.len() {
        return None;
    }
    let ghost mut esc_at: int = -1;
    loop
        invariant
            start <= i <= v@.len(),
            esc_at == -1 ==> out@ == v@.subrange(start as int, i as int) && (forall|j: int|
                start <= j < i ==> (#[trigger] v@[j]) != '"' && v@[j] != '\\'),
            esc_at != -1 ==> start <= esc_at < i && v@[esc_at] == '\\' && (forall|j: int|
                start <= j < esc_at ==> (#[trigger] v@[j]) != '"' && v@[j] != '\\'),
        decreases v@.len() - i,
    {
        if i >= v.len() {
            proof {
                assert forall|e: int|
                    (start <= e < v@.len() && (#[trigger] v@[e]) == '"') implies (exists|j: int|
                        start <= j < e && ((#[trigger] v@[j]) == '"' || v@[j] == '\\')) by {
                    if esc_at == -1 {
                        assert(v@[e] != '"');
                    } else {
                        if e > esc_at {
                            assert(v@[esc_at] == '\\');
                        } else {
                            assert(v@[e] != '"');
                        }
                    }
                }
            }
            return None;
        }
        let c = v[i];
        if c == '"' {
            return Some((out, i));
        }
        if c == '\\' {
            proof {
                if esc_at == -1 {
                    esc_at = i as int;
                }
            }
            if i + 1 >= v.len() {
                proof {
                    bad_escape_exit(v@, start as int, esc_at);
                }
                return None;
            }
            let e = v[i + 1];
            if e == '"' {
                out.push('"');
                i = i + 2;
            } else if e == '\\' {
                out.push('\\');
                i = i + 2;
            } else if e == 'u' {
                if v.len() - i <= 5 {
                    proof {
                        bad_escape_exit(v@, start as int, esc_at);
                    }
                    return None;
                }
                if v[i + 2] != '0' || v[i + 3] != '0' {
                    proof {
                        bad_escape_exit(v@, start as int, esc_at);
                    }
                    return None;
                }
                let hi = hex_val(v[i + 4]);
                let lo = hex_val(v[i + 5]);
                match (hi, lo) {
                    (Option::Some(h), Option::Some(l)) => {
                        let code: u32 = h as u32 * 16 + l as u32;
                        out.push((code as u8) as char);
                        i = i + 6;
                    },
                    _ => {
                        proof {
                            bad_escape_exit(v@, start as int, esc_at);
                        }
                        return None;
                    },
                }
            } else {
                proof {
                    bad_escape_exit(v@, start as int, esc_at);
                }
                return None;
            }
        } else {
            out.push(c);
            i = i + 1;
            proof {
                if esc_at == -1 {
                    assert(out@ =~= v@.subrange(start as int, i as int));
                }
            }
        }
    }
}

/// After a malformed escape, no quote stands over a clean region: the first
/// backslash comes before any such quote.
proof fn bad_escape_exit(w: Seq<char>, start: int, esc_at: int)
    requires
        0 <= start,
        start <= esc_at < w.len(),
        w[esc_at] == '\\',
        forall|j: int| start <= j < esc_at ==> (#[trigger] w[j]) != '"' && w[j] != '\\',
    ensures
        forall|e: int|
            (start <= e < w.len() && (#[trigger] w[e]) == '"') ==> (exists|j: int|
                start <= j < e && ((#[trigger] w[j]) == '"' || w[j] == '\\')),
{
    assert forall|e: int|
        (start <= e < w.len() && (#[trigger] w[e]) == '"') implies (exists|j: int|
            start <= j < e && ((#[trigger] w[j]) == '"' || w[j] == '\\')) by {
        if e > esc_at {
            assert(w[esc_at] == '\\');
        } else {
            assert(w[e] != '"');
        }
    }
}

fn hex_val(c: char) -> (r: Option<u8>)
    ensures
        (r matches Option::Some(d) ==> d < 16),
{
    let u = c as u32;
    if '0' <= c && c <= '9' {
        Some((u - 48) as u8)
    } else if 'a' <= c && c <= 'f' {
        Some((u - 87) as u8)
    } else {
        None
    }
}

/// Reads an unsigned decimal number: the longest run of digits, as long as
/// its value fits.
fn read_u64(v: &Vec<char>, start: usize) -> (r: Option<(u64, usize)>)
    ensures
        match r {
            Option::Some(p) => {
                &&& start < p.1 <= v@.len()
                &&& (forall|j: int|
                    start <= j < p.1 ==> crate::config::is_digit(#[trigger] v@[j]))
                &&& (p.1 < v@.len() ==> !crate::config::is_digit(v@[p.1 as int]))
                &&& p.0 == crate::config::digits_val(v@.subrange(start as int, p.1 as int))
            },
            Option::None => start >= v@.len() || !crate::config::is_digit(v@[start as int]) || (
            exists|e: int|
                start < e <= v@.len() && (forall|j: int|
                    start <= j < e ==> crate::config::is_digit(#[trigger] v@[j]))
                    && crate::config::digits_val(v@.subrange(start as int, e)) > u64::MAX),
        },
{
    let mut i: usize = start;
    if i >= v.len() {
        return None;
    }
    let mut acc: u64 = 0;
    let mut any = false;
    loop
        invariant
            start <= i <= v@.len(),
            start < v@.len(),
            any == (i > start),
            forall|j: int| start <= j < i ==> crate::config::is_digit(#[trigger] v@[j]),
            acc == crate::config::digits_val(v@.subrange(start as int, i as int)),
        decreases v@.len() - i,
    {
        if i >= v.len() {
            return Some((acc, i));
        }
        let c = v[i];
        if !('0' <= c && c <= '9') {
            proof {
                assert(!crate::config::is_digit(v@[i as int]));
            }
            if any {
                return Some((acc, i));
            }
            return None;
        }
        let d: u64 = (c as u32 - 48) as u64;
        proof {
            assert(v@.subrange(start as int, i as int + 1).drop_last() =~= v@.subrange(
                start as int,
                i as int,
            ));
            assert(v@.subrange(start as int, i as int + 1).last() == v@[i as int]);
            assert(crate::config::digits_val(v@.subrange(start as int, i as int + 1)) == acc * 10
                + d);
        }
        if acc > (u64::MAX - d) / 10 {
            proof {
                assert(acc * 10 + d > u64::MAX) by (nonlinear_arith)
                    requires
                        acc > ((u64::MAX - d) as int) / 10,
                        0 <= d <= 9,
                ;
                assert(crate::config::is_digit(v@[i as int]));
            }
            return None;
        }
        proof {
            assert(acc * 10 + d <= u64::MAX) by (nonlinear_arith)
                requires
                    acc <= ((u64::MAX - d) as int) / 10,
                    0 <= d <= 9,
            ;
        }
        acc = acc * 10 + d;
        any = true;
        i = i + 1;
    }
}

/// A decimal rendering stands at `start`, bounded by a non-digit.
pub open spec fn dec_shape_at(w: Seq<char>, start: int, q: int) -> bool {
    &&& 0 <= start
    &&& q >= 0
    &&& start + dec_str(q).len() <= w.len()
    &&& w.subrange(start, start + dec_str(q).len()) == dec_str(q)
    &&& (start + dec_str(q).len() < w.len() ==> !crate::config::is_digit(
        w[start + dec_str(q).len()],
    ))
}

/// A digit scan over a standing decimal rendering ends exactly at its end
/// and reads back its value.
proof fn lemma_dec_scan_unique(w: Seq<char>, start: int, q: int, m: u64, e: int)
    requires
        dec_shape_at(w, start, q),
        q <= u64::MAX,
        start < e <= w.len(),
        forall|j: int| start <= j < e ==> crate::config::is_digit(#[trigger] w[j]),
        e < w.len() ==> !crate::config::is_digit(w[e]),
        m == crate::config::digits_val(w.subrange(start, e)),
    ensures
        e == start + dec_str(q).len(),
        m == q,
{
    lemma_dec_str_shape(q);
    let ln = dec_str(q).len() as int;
    if e < start + ln {
        assert(w.subrange(start, start + ln)[e - start] == w[e]);
        assert(crate::config::is_digit(dec_str(q)[e - start]));
        assert(false);
    }
    if e > start + ln {
        assert(crate::config::is_digit(w[start + ln]));
        assert(false);
    }
    assert(w.subrange(start, e) == dec_str(q));
}

/// A digit scan cannot fail over a standing decimal rendering: the first
/// character is a digit and no digit run here outgrows the value.
proof fn lemma_dec_scan_must_succeed(w: Seq<char>, start: int, q: int)
    requires
        dec_shape_at(w, start, q),
        q <= u64::MAX,
    ensures
        start < w.len(),
        crate::config::is_digit(w[start]),
        forall|e: int|
            start < e <= w.len() && (forall|j: int|
                start <= j < e ==> crate::config::is_digit(#[trigger] w[j]))
                ==> crate::config::digits_val(w.subrange(start, e)) <= u64::MAX,
{
    lemma_dec_str_shape(q);
    let ln = dec_str(q).len() as int;
    assert(w.subrange(start, start + ln)[0] == w[start]);
    assert(crate::config::is_digit(dec_str(q)[0]));
    assert forall|e: int|
        start < e <= w.len() && (forall|j: int|
            start <= j < e ==> crate::config::is_digit(#[trigger] w[j])) implies crate::config::digits_val(
        w.subrange(start, e),
    ) <= u64::MAX by {
        if e > start + ln {
            assert(crate::config::is_digit(w[start + ln]));
            assert(false);
        } else {
            assert(w.subrange(start, e) =~= dec_str(q).take(e - start)) by {
                assert forall|j: int| 0 <= j < e - start implies w.subrange(start, e)[j]
                    == dec_str(q).take(e - start)[j] by {
                    assert(w.subrange(start, start + ln)[j] == w[start + j]);
                }
            }
            crate::config::lemma_digits_val_prefix(dec_str(q), e - start);
        }
    }
}

/// An integer rendering splits into an optional sign and a decimal one.
proof fn lemma_int_shape_cases(w: Seq<char>, start: int, n: int)
    requires
        int_shape_at(w, start, n),
    ensures
        n >= 0 ==> dec_shape_at(w, start, n) && start < w.len() && w[start] != '-',
        n < 0 ==> start < w.len() && w[start] == '-' && dec_shape_at(w, start + 1, -n),
{
    if n >= 0 {
        assert(int_str(n) == dec_str(n));
        lemma_dec_str_shape(n);
        assert(w.subrange(start, start + dec_str(n).len())[0] == w[start]);
        assert(crate::config::is_digit(w[start]));
    } else {
        lemma_dec_str_shape(-n);
        let ln = dec_str(-n).len() as int;
        assert(int_str(n) == seq!['-'] + dec_str(-n));
        assert(int_str(n).len() == 1 + ln);
        assert(w.subrange(start, start + 1 + ln)[0] == w[start]);
        assert(int_str(n)[0] == '-');
        assert(w.subrange(start + 1, start + 1 + ln) =~= dec_str(-n)) by {
            assert forall|j: int| 0 <= j < ln implies #[trigger] w.subrange(
                start + 1,
                start + 1 + ln,
            )[j] == dec_str(-n)[j] by {
                assert(w.subrange(start, start + 1 + ln)[j + 1] == w[start + 1 + j]);
                assert(int_str(n)[j + 1] == dec_str(-n)[j]);
            }
        }
    }
}

/// An integer rendering stands at `start`, bounded by a non-digit.
pub open spec fn int_shape_at(w: Seq<char>, start: int, n: int) -> bool {
    &&& 0 <= start
    &&& start + int_str(n).len() <= w.len()
    &&& w.subrange(start, start + int_str(n).len()) == int_str(n)
    &&& (start + int_str(n).len() < w.len() ==> !crate::config::is_digit(
        w[start + int_str(n).len()],
    ))
}

/// Reads a possibly negative decimal number; where the text at this position
/// renders an `i64` followed by a non-digit, exactly that value is read.
fn read_i64(v: &Vec<char>, start: usize) -> (r: Option<(i64, usize)>)
    ensures
        (r matches Option::Some(p) ==> start <= p.1 <= v@.len()),
        forall|n: i64|
            int_shape_at(v@, start as int, n as int) ==> r == Option::Some(
                (n, (start + int_str(n as int).len()) as usize),
            ),
{
    if start < v.len() && v[start] == '-' {
        let ru = read_u64(v, start + 1);
        let r: Option<(i64, usize)> = match ru {
            Option::Some((m, j)) => {
                if m <= i64::MAX as u64 {
                    Some((-(m as i64), j))
                } else if m == (i64::MAX as u64) + 1 {
                    Some((i64::MIN, j))
                } else {
                    None
                }
            },
            Option::None => None,
        };
        proof {
            assert forall|n: i64| int_shape_at(v@, start as int, n as int) implies r
                == Option::Some((n, (start + int_str(n as int).len()) as usize)) by {
                lemma_int_shape_cases(v@, start as int, n as int);
                assert(n < 0);
                let q = -(n as int);
                lemma_dec_scan_must_succeed(v@, start as int + 1, q);
                match ru {
                    Option::Some(p) => {
                        lemma_dec_scan_unique(v@, start as int + 1, q, p.0, p.1 as int);
                        assert(p.0 == q);
                        assert(p.1 == start + 1 + dec_str(q).len());
                        assert(int_str(n as int).len() == 1 + dec_str(q).len());
                    },
                    Option::None => {
                        assert(false);
                    },
                }
            }
        }
        r
    } else {
        let ru = read_u64(v, start);
        let r: Option<(i64, usize)> = match ru {
            Option::Some((m, j)) => {
                if m <= i64::MAX as u64 {
                    Some((m as i64, j))
                } else {
                    None
                }
            },
            Option::None => None,
        };
        proof {
            assert forall|n: i64| int_shape_at(v@, start as int, n as int) implies r
                == Option::Some((n, (start + int_str(n as int).len()) as usize)) by {
                lemma_int_shape_cases(v@, start as int, n as int);
                assert(n >= 0);
                lemma_dec_scan_must_succeed(v@, start as int, n as int);
                match ru {
                    Option::Some(p) => {
                        lemma_dec_scan_unique(v@, start as int, n as int, p.0, p.1 as int);
                        assert(p.0 == n);
                        assert(p.1 == start + dec_str(n as int).len());
                    },
                    Option::None => {
                        assert(false);
                    },
                }
            }
        }
        r
    }
}

/// Scans the head of a canonical snapshot: the opening literal, the domain
/// string and the timestamp. Where the text is the canonical serialization
/// of a plain-named snapshot, the scan finds exactly its head.
#[verifier::rlimit(100)]
fn scan_head(v: &Vec<char>) -> (r: Option<(Vec<char>, u64, usize)>)
    ensures
        (r matches Option::Some(p) ==> p.2 <= v@.len()),
        forall|st0: ResumeState|
            v@ == #[trigger] resume_json(st0) && plain_str(st0.last_domain@) ==> (r matches
            Option::Some(p) && p.0@ == st0.last_domain@ && p.1 == st0.updated_at_unix && p.2
                == 36 + st0.last_domain@.len() + dec_str(st0.updated_at_unix as int).len()),
{
    let ghost w = v@;
    let vlen = v.len();
    let r0 = eat_lit(&v, 0, "{\"last_domain\":\"");
    let p0 = match r0 {
        Option::Some(j) => j,
        Option::None => {
            proof {
                assert forall|st0: ResumeState|
                    w == #[trigger] resume_json(st0) && plain_str(st0.last_domain@) implies false by {
                    lemma_canonical_segments(w, st0);
                }
            }
            return None;
        },
    };
    let r1 = read_json_string(&v, p0);
    let (ld, p1) = match r1 {
        Option::Some(pair) => pair,
        Option::None => {
            proof {
                assert forall|st0: ResumeState|
                    w == #[trigger] resume_json(st0) && plain_str(st0.last_domain@) implies false by {
                    lemma_canonical_segments(w, st0);
                    let o2 = 16 + st0.last_domain@.len() as int;
                    assert(w[o2] == '"');
                }
            }
            return None;
        },
    };
    proof {
        assert forall|st0: ResumeState|
            w == #[trigger] resume_json(st0) && plain_str(st0.last_domain@) implies p1 == 16
            + st0.last_domain@.len() && ld@ == st0.last_domain@ by {
            lemma_canonical_segments(w, st0);
            let x = st0.last_domain@;
            let o2 = 16 + x.len() as int;
            if exists|q: int|
                p0 <= q < p1 && (#[trigger] w[q]) == '\\' && (forall|j: int|
                    p0 <= j < q ==> (#[trigger] w[j]) != '"' && w[j] != '\\') {
                let q = choose|q: int|
                    p0 <= q < p1 && (#[trigger] w[q]) == '\\' && (forall|j: int|
                        p0 <= j < q ==> (#[trigger] w[j]) != '"' && w[j] != '\\');
                if q < o2 {
                    assert(w[q] != '\\');
                } else {
                    assert(w[o2] != '"');
                }
                assert(false);
            }
            if p1 < o2 {
                assert(w[p1 as int] != '"');
                assert(false);
            }
            if p1 > o2 {
                assert(w[o2] != '"');
                assert(false);
            }
            assert(ld@ == w.subrange(16, o2));
        }
    }
    let r2 = eat_lit(&v, p1, "\",\"updated_at_unix\":");
    let p2 = match r2 {
        Option::Some(j) => j,
        Option::None => {
            proof {
                assert forall|st0: ResumeState|
                    w == #[trigger] resume_json(st0) && plain_str(st0.last_domain@) implies false by {
                    lemma_canonical_segments(w, st0);
                }
            }
            return None;
        },
    };
    let r3 = read_u64(&v, p2);
    proof {
        assert forall|st0: ResumeState|
            w == #[trigger] resume_json(st0) && plain_str(st0.last_domain@) implies r3
            == Option::Some(
            (st0.updated_at_unix, (p2 + dec_str(st0.updated_at_unix as int).len()) as usize),
        ) by {
            lemma_canonical_segments(w, st0);
            let o3 = 16 + st0.last_domain@.len() as int + 20;
            assert(p2 == o3);
            lemma_dec_scan_must_succeed(w, o3, st0.updated_at_unix as int);
            match r3 {
                Option::Some(pr) => {
                    lemma_dec_scan_unique(w, o3, st0.updated_at_unix as int, pr.0, pr.1 as int);
                },
                Option::None => {
                    assert(false);
                },
            }
        }
    }
    proof {
        assert forall|st0: ResumeState|
            w == #[trigger] resume_json(st0) && plain_str(st0.last_domain@) implies (r3 matches
            Option::Some(p) && p.0 == st0.updated_at_unix && p.1 == 36 + st0.last_domain@.len()
            + dec_str(st0.updated_at_unix as int).len()) by {
            lemma_canonical_segments(w, st0);
            let o2 = 16 + st0.last_domain@.len() as int;
            assert(w.subrange(o2, o2 + 20) == "\",\"updated_at_unix\":"@);
            assert("\",\"updated_at_unix\":"@.len() == 20);
            assert(p2 == 36 + st0.last_domain@.len());
            let dlen = dec_str(st0.updated_at_unix as int).len() as int;
            assert(p2 + dlen <= w.len());
            assert(w.len() == vlen);
            assert((p2 + dlen) as usize == p2 + dlen);
        }
    }
    match r3 {
        Option::Some((ts, p3)) => Some((ld, ts, p3)),
        Option::None => None,
    }
}

/// Scans one `,"<name>":<number>` pair of a canonical snapshot. Where such a
/// pair stands at `at`, bounded like the canonical text, exactly its number
/// is read.
#[verifier::rlimit(100)]
fn scan_counter(v: &Vec<char>, at: usize, name: &str) -> (r: Option<(i64, usize)>)
    ensures
        (r matches Option::Some(p) ==> p.1 <= v@.len()),
        forall|n: i64|
            (at + name@.len() <= v@.len() && v@.subrange(at as int, at as int + name@.len())
                == name@ && int_shape_at(v@, at + name@.len(), n as int)) ==> r == Option::Some(
                (n, (at + name@.len() + int_str(n as int).len()) as usize),
            ),
{
    let r0 = eat_lit(&v, at, name);
    let p0 = match r0 {
        Option::Some(j) => j,
        Option::None => {
            return None;
        },
    };
    read_i64(&v, p0)
}

/// Reads one snapshot from text. Only the canonical serialization is
/// accepted: whatever parses is exactly the serialization of the returned
/// snapshot, so a damaged, partial or foreign file yields nothing instead of
/// a misread one. Conversely, the canonical serialization of any snapshot
/// whose domain carries no quote, backslash or control character is always
/// read back.
#[verifier::rlimit(100)]
pub fn parse_resume_state(s: &str) -> (r: Option<ResumeState>)
    ensures
        match r {
            Option::Some(st) => s@ == resume_json(st),
            Option::None => true,
        },
        forall|st0: ResumeState|
            s@ == #[trigger] resume_json(st0) && plain_str(st0.last_domain@) ==> r is Some,
{
    let v = chars_of(s);
    let ghost w = s@;
    let vlen = v.len();
    let rh = scan_head(&v);
    let (ld, ts, p3) = match rh {
        Option::Some(t) => t,
        Option::None => {
            return None;
        },
    };
    let r5 = scan_counter(&v, p3, ",\"enqueued\":");
    proof {
        assert forall|st0: ResumeState|
            w == #[trigger] resume_json(st0) && plain_str(st0.last_domain@) implies r5
            == Option::Some(
            (
                st0.enqueued,
                (p3 + 12 + int_str(st0.enqueued as int).len()) as usize,
            ),
        ) by {
            lemma_canonical_segments(w, st0);
            assert(w.len() == vlen);
            assert((p3 + 12 + int_str(st0.enqueued as int).len()) as usize == p3 + 12 + int_str(
                st0.enqueued as int,
            ).len());
        }
    }
    let (enq, p5) = match r5 {
        Option::Some(pair) => pair,
        Option::None => {
            return None;
        },
    };
    let r7 = scan_counter(&v, p5, ",\"checked\":");
    proof {
        assert forall|st0: ResumeState|
            w == #[trigger] resume_json(st0) && plain_str(st0.last_domain@) implies r7
            == Option::Some(
            (
                st0.checked,
                (p5 + 11 + int_str(st0.checked as int).len()) as usize,
            ),
        ) by {
            lemma_canonical_segments(w, st0);
            assert(w.len() == vlen);
            assert((p5 + 11 + int_str(st0.checked as int).len()) as usize == p5 + 11 + int_str(
                st0.checked as int,
            ).len());
        }
    }
    let (chk, p7) = match r7 {
        Option::Some(pair) => pair,
        Option::None => {
            return None;
        },
    };
    let r9 = scan_counter(&v, p7, ",\"found\":");
    proof {
        assert forall|st0: ResumeState|
            w == #[trigger] resume_json(st0) && plain_str(st0.last_domain@) implies r9
            == Option::Some(
            (st0.found, (p7 + 9 + int_str(st0.found as int).len()) as usize),
        ) by {
            lemma_canonical_segments(w, st0);
            assert(w.len() == vlen);
            assert((p7 + 9 + int_str(st0.found as int).len()) as usize == p7 + 9 + int_str(
                st0.found as int,
            ).len());
        }
    }
    let (fnd, p9) = match r9 {
        Option::Some(pair) => pair,
        Option::None => {
            return None;
        },
    };
    let r11 = scan_counter(&v, p9, ",\"total_planned\":");
    proof {
        assert forall|st0: ResumeState|
            w == #[trigger] resume_json(st0) && plain_str(st0.last_domain@) implies r11
            == Option::Some(
            (
                st0.total_planned,
                (p9 + 17 + int_str(st0.total_planned as int).len()) as usize,
            ),
        ) by {
            lemma_canonical_segments(w, st0);
            assert(w.len() == vlen);
            assert((p9 + 17 + int_str(st0.total_planned as int).len()) as usize == p9 + 17
                + int_str(st0.total_planned as int).len());
        }
    }
    let (tp, p11) = match r11 {
        Option::Some(pair) => pair,
        Option::None => {
            return None;
        },
    };
    let st = ResumeState {
        last_domain: string_of(&ld),
        updated_at_unix: ts,
        enqueued: enq,
        checked: chk,
        found: fnd,
        total_planned: tp,
    };
    let ser = serialize_resume_state(&st);
    let sv = chars_of(ser.as_str());
    proof {
        assert forall|st0: ResumeState|
            w == #[trigger] resume_json(st0) && plain_str(st0.last_domain@) implies sv@ == w by {
            lemma_canonical_segments(w, st0);
            assert(st.last_domain@ == st0.last_domain@);
            assert(resume_json(st) == resume_json(st0));
        }
    }
    if eq_chars(&sv, &v) {
        Some(st)
    } else {
        None
    }
}

/// A character the serializer leaves unescaped.
pub open spec fn plain_char(c: char) -> bool {
    (c as u32) >= 32 && c != '"' && c != '\\'
}

/// A string the serializer writes as it stands: no quotes, backslashes or
/// control characters.
pub open spec fn plain_str(x: Seq<char>) -> bool {
    forall|j: int| 0 <= j < x.len() ==> plain_char(#[trigger] x[j])
}

/// Escaping changes nothing in a plain string.
pub proof fn lemma_escape_plain(x: Seq<char>)
    requires
        plain_str(x),
    ensures
        json_escape(x) == x,
    decreases x.len(),
{
    if x.len() > 0 {
        assert(plain_str(x.drop_last())) by {
            assert forall|j: int| 0 <= j < x.drop_last().len() implies plain_char(
                #[trigger] x.drop_last()[j],
            ) by {
                assert(x.drop_last()[j] == x[j]);
            }
        }
        lemma_escape_plain(x.drop_last());
        assert(plain_char(x.last()));
        assert(esc_char(x.last()) == seq![x.last()]);
        assert(json_escape(x) =~= x);
    } else {
        assert(json_escape(x) =~= x);
    }
}

/// Where the canonical serialization of a plain-named snapshot stands, each
/// of its pieces stands at its own offset, ready for the scanners.
proof fn lemma_canonical_segments(w: Seq<char>, st: ResumeState)
    requires
        w == resume_json(st),
        plain_str(st.last_domain@),
    ensures
        ({
            let x = st.last_domain@;
            let o2 = 16 + x.len() as int;
            let o3 = o2 + 20;
            let o4 = o3 + dec_str(st.updated_at_unix as int).len();
            let o5 = o4 + 12;
            let o6 = o5 + int_str(st.enqueued as int).len();
            let o7 = o6 + 11;
            let o8 = o7 + int_str(st.checked as int).len();
            let o9 = o8 + 9;
            let o10 = o9 + int_str(st.found as int).len();
            let o11 = o10 + 17;
            let o12 = o11 + int_str(st.total_planned as int).len();
            &&& w.len() == o12 + 1
            &&& w.subrange(0, 16) == "{\"last_domain\":\""@
            &&& w.subrange(16, o2) == x
            &&& (forall|j: int| 16 <= j < o2 ==> (#[trigger] w[j]) != '"' && w[j] != '\\')
            &&& w[o2] == '"'
            &&& w.subrange(o2, o3) == "\",\"updated_at_unix\":"@
            &&& dec_shape_at(w, o3, st.updated_at_unix as int)
            &&& w.subrange(o4, o5) == ",\"enqueued\":"@
            &&& int_shape_at(w, o5, st.enqueued as int)
            &&& w.subrange(o6, o7) == ",\"checked\":"@
            &&& int_shape_at(w, o7, st.checked as int)
            &&& w.subrange(o8, o9) == ",\"found\":"@
            &&& int_shape_at(w, o9, st.found as int)
            &&& w.subrange(o10, o11) == ",\"total_planned\":"@
            &&& int_shape_at(w, o11, st.total_planned as int)
        }),
{
    reveal_strlit("{\"last_domain\":\"");
    reveal_strlit("\",\"updated_at_unix\":");
    reveal_strlit(",\"enqueued\":");
    reveal_strlit(",\"checked\":");
    reveal_strlit(",\"found\":");
    reveal_strlit(",\"total_planned\":");
    reveal_strlit("}");
    lemma_escape_plain(st.last_domain@);
    let a1 = "{\"last_domain\":\""@;
    let x = st.last_domain@;
    let a2 = "\",\"updated_at_unix\":"@;
    let d3 = dec_str(st.updated_at_unix as int);
    let a3 = ",\"enqueued\":"@;
    let n4 = int_str(st.enqueued as int);
    let a4 = ",\"checked\":"@;
    let n5 = int_str(st.checked as int);
    let a5 = ",\"found\":"@;
    let n6 = int_str(st.found as int);
    let a6 = ",\"total_planned\":"@;
    let n7 = int_str(st.total_planned as int);
    let a7 = "}"@;
    assert(a1.len() == 16);
    assert(a2.len() == 20);
    assert(a3.len() == 12);
    assert(a4.len() == 11);
    assert(a5.len() == 9);
    assert(a6.len() == 17);
    assert(a7.len() == 1);
    assert(w == a1 + x + a2 + d3 + a3 + n4 + a4 + n5 + a5 + n6 + a6 + n7 + a7);
    let o2 = 16 + x.len() as int;
    let o3 = o2 + 20;
    let o4 = o3 + d3.len();
    let o5 = o4 + 12;
    let o6 = o5 + n4.len();
    let o7 = o6 + 11;
    let o8 = o7 + n5.len();
    let o9 = o8 + 9;
    let o10 = o9 + n6.len();
    let o11 = o10 + 17;
    let o12 = o11 + n7.len();
    assert(w.len() == o12 + 1);
    assert(w.subrange(0, 16) =~= a1);
    assert(w.subrange(16, o2) =~= x);
    assert forall|j: int| 16 <= j < o2 implies (#[trigger] w[j]) != '"' && w[j] != '\\' by {
        assert(w.subrange(16, o2)[j - 16] == w[j]);
        assert(plain_char(x[j - 16]));
    }
    assert(w.subrange(o2, o3) =~= a2);
    assert(w[o2] == w.subrange(o2, o3)[0]);
    assert(w.subrange(o3, o4) =~= d3);
    assert(w.subrange(o4, o5) =~= a3);
    assert(w[o4] == w.subrange(o4, o5)[0]);
    assert(!crate::config::is_digit(','));
    assert(dec_shape_at(w, o3, st.updated_at_unix as int));
    assert(w.subrange(o5, o6) =~= n4);
    assert(w[o6] == w.subrange(o6, o7)[0]);
    assert(w.subrange(o6, o7) =~= a4);
    assert(int_shape_at(w, o5, st.enqueued as int));
    assert(w.subrange(o7, o8) =~= n5);
    assert(w.subrange(o8, o9) =~= a5);
    assert(w[o8] == w.subrange(o8, o9)[0]);
    assert(int_shape_at(w, o7, st.checked as int));
    assert(w.subrange(o9, o10) =~= n6);
    assert(w.subrange(o10, o11) =~= a6);
    assert(w[o10] == w.subrange(o10, o11)[0]);
    assert(int_shape_at(w, o9, st.found as int));
    assert(w.subrange(o11, o12) =~= n7);
    assert(w[o12] == '}');
    assert(!crate::config::is_digit('}'));
    assert(int_shape_at(w, o11, st.total_planned as int));
}


/// Decimal renderings consist of digits, and read back to their value.
proof fn lemma_dec_str_pos_shape(n: int)
    requires
        n >= 0,
    ensures
        forall|j: int|
            0 <= j < crate::text::dec_str_pos(n).len() ==> crate::config::is_digit(
                #[trigger] crate::text::dec_str_pos(n)[j],
            ),
        crate::config::digits_val(crate::text::dec_str_pos(n)) == n,
        n > 0 ==> crate::text::dec_str_pos(n).len() >= 1,
    decreases n,
{
    if n > 0 {
        lemma_dec_str_pos_shape(n / 10);
        let pre = crate::text::dec_str_pos(n / 10);
        let c = crate::text::digit_char(n % 10);
        lemma_digit_roundtrip(n % 10);
        assert(crate::text::dec_str_pos(n) == pre.push(c));
        assert(pre.push(c).drop_last() =~= pre);
        assert(pre.push(c).last() == c);
        assert(crate::config::digits_val(pre.push(c)) == n / 10 * 10 + n % 10);
        vstd::arithmetic::div_mod::lemma_fundamental_div_mod(n, 10);
        assert forall|j: int|
            0 <= j < crate::text::dec_str_pos(n).len() implies crate::config::is_digit(
            #[trigger] crate::text::dec_str_pos(n)[j],
        ) by {
            if j < pre.len() {
                assert(pre.push(c)[j] == pre[j]);
            } else {
                assert(pre.push(c)[j] == c);
            }
        }
    }
}

proof fn lemma_digit_roundtrip(d: int)
    requires
        0 <= d <= 9,
    ensures
        crate::config::is_digit(crate::text::digit_char(d)),
        crate::text::digit_char(d) as u32 - '0' as u32 == d,
{
    if d == 0 {
        assert(crate::text::digit_char(0) == '0');
    } else if d == 1 {
        assert(crate::text::digit_char(1) == '1');
    } else if d == 2 {
        assert(crate::text::digit_char(2) == '2');
    } else if d == 3 {
        assert(crate::text::digit_char(3) == '3');
    } else if d == 4 {
        assert(crate::text::digit_char(4) == '4');
    } else if d == 5 {
        assert(crate::text::digit_char(5) == '5');
    } else if d == 6 {
        assert(crate::text::digit_char(6) == '6');
    } else if d == 7 {
        assert(crate::text::digit_char(7) == '7');
    } else if d == 8 {
        assert(crate::text::digit_char(8) == '8');
    } else {
        assert(crate::text::digit_char(9) == '9');
    }
}

/// A decimal rendering is one or more digits and reads back to its value.
pub proof fn lemma_dec_str_shape(n: int)
    requires
        n >= 0,
    ensures
        dec_str(n).len() >= 1,
        forall|j: int|
            0 <= j < dec_str(n).len() ==> crate::config::is_digit(#[trigger] dec_str(n)[j]),
        crate::config::digits_val(dec_str(n)) == n,
{
    if n <= 0 {
        assert(dec_str(0) == seq!['0']);
        assert(seq!['0'].drop_last() =~= Seq::<char>::empty());
        assert(crate::config::digits_val(Seq::<char>::empty()) == 0);
        assert(seq!['0'].last() == '0');
        assert(crate::config::digits_val(seq!['0']) == 0);
        assert(crate::config::is_digit(dec_str(n)[0]));
    } else {
        lemma_dec_str_pos_shape(n);
    }
}


/// The snapshot the periodic saver writes: the observed domain trimmed, the
/// caller's clock reading, and the counters as they stand.
pub fn make_resume_state(
    last: &str,
    now_unix: u64,
    prog: &crate::progress::Progress,
) -> (r: ResumeState)
    ensures
        r.last_domain@ == crate::text::trim_spec(last@),
        r.updated_at_unix == now_unix,
        r.enqueued == prog.enqueued,
        r.checked == prog.checked,
        r.found == prog.found,
        r.total_planned == prog.total_planned,
{
    ResumeState {
        last_domain: crate::text::trim_str(last),
        updated_at_unix: now_unix,
        enqueued: prog.enqueued,
        checked: prog.checked,
        found: prog.found,
        total_planned: prog.total_planned,
    }
}

} // verus!
