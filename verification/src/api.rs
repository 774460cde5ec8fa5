//! What the read API serves: derived statistics and response bodies.
//!
//! The HTTP surface itself lives outside the library; these functions
//! compute everything it serves — formatted durations, size estimates, the
//! remaining-work figure, the parsed `<tld>.<ext>` path, and the plain-text
//! and JSON bodies.
use vstd::prelude::*;

use crate::resume::{json_escape, esc_char};
use crate::text::{dec_str, digit_char, chars_of, string_of, append_chars, lower};

verus! {

/// Two digits at least: a leading zero below ten.
pub open spec fn pad2(n: int) -> Seq<char> {
    if n < 10 {
        seq!['0'] + dec_str(n)
    } else {
        dec_str(n)
    }
}

/// A duration in seconds rendered the way the stats endpoint shows it:
/// `MM:SS`, `H:MM:SS` from an hour up, and `Dd HH:MM:SS` from a day up.
pub open spec fn fmt_duration_spec(secs: nat) -> Seq<char> {
    let h_total = secs / 3600;
    let m = (secs % 3600) / 60;
    let s = secs % 60;
    let days = h_total / 24;
    let h = h_total % 24;
    if days > 0 {
        dec_str(days as int) + seq!['d', ' '] + pad2(h as int) + seq![':'] + pad2(m as int)
            + seq![':'] + pad2(s as int)
    } else if h_total > 0 {
        dec_str(h_total as int) + seq![':'] + pad2(m as int) + seq![':'] + pad2(s as int)
    } else {
        pad2(m as int) + seq![':'] + pad2(s as int)
    }
}

fn push_pad2(out: &mut Vec<char>, n: u64)
    ensures
        final(out)@ == old(out)@ + pad2(n as int),
{
    if n < 10 {
        out.push('0');
        let d = crate::text::u64_to_chars(n);
        append_chars(out, &d);
        proof {
            assert(old(out)@ + (seq!['0'] + dec_str(n as int)) =~= (old(out)@.push('0'))
                + dec_str(n as int));
        }
    } else {
        let d = crate::text::u64_to_chars(n);
        append_chars(out, &d);
    }
}

/// Renders a duration, given whole seconds.
pub fn fmt_duration(secs: u64) -> (r: String)
    ensures
        r@ == fmt_duration_spec(secs as nat),
{
    let h_total = secs / 3600;
    let m = (secs % 3600) / 60;
    let s = secs % 60;
    let days = h_total / 24;
    let h = h_total % 24;
    let mut out: Vec<char> = Vec::new();
    if days > 0 {
        let d = crate::text::u64_to_chars(days);
        append_chars(&mut out, &d);
        out.push('d');
        out.push(' ');
        push_pad2(&mut out, h);
        out.push(':');
        push_pad2(&mut out, m);
        out.push(':');
        push_pad2(&mut out, s);
    } else if h_total > 0 {
        let d = crate::text::u64_to_chars(h_total);
        append_chars(&mut out, &d);
        out.push(':');
        push_pad2(&mut out, m);
        out.push(':');
        push_pad2(&mut out, s);
    } else {
        push_pad2(&mut out, m);
        out.push(':');
        push_pad2(&mut out, s);
    }
    proof {
        assert(out@ =~= fmt_duration_spec(secs as nat));
    }
    string_of(&out)
}

/// `1024^e`.
pub open spec fn pow1024(e: nat) -> nat
    decreases e,
{
    if e == 0 {
        1
    } else {
        1024 * pow1024((e - 1) as nat)
    }
}

/// How many more halvings by 1024 a quotient takes to drop below 1024.
pub open spec fn hb_exp(m: nat) -> nat
    decreases m,
{
    if m < 1024 {
        0
    } else {
        1 + hb_exp(m / 1024)
    }
}

/// The unit letter of a scale step.
pub open spec fn hb_suffix(e: int) -> char {
    [' ', 'K', 'M', 'G', 'T', 'P', 'E'][e + 1]
}

/// A byte count rendered for people: plain bytes below 1 KiB, otherwise one
/// decimal place of the binary-scaled value, rounded half up, with the
/// matching binary unit.
pub open spec fn human_bytes_spec(n: nat) -> Seq<char> {
    if n < 1024 {
        dec_str(n as int) + seq!['B']
    } else {
        let e = hb_exp(n / 1024);
        let div = pow1024(e + 1);
        let tenths = (10 * n + div / 2) / div;
        dec_str(tenths as int / 10) + seq!['.', digit_char(tenths as int % 10), hb_suffix(
            e as int,
        ), 'i', 'B']
    }
}

/// The concrete small powers the size formatter needs.
proof fn lemma_pow1024_values()
    ensures
        pow1024(1) == 1024,
        pow1024(7) > u64::MAX,
{
    assert(pow1024(0) == 1);
    assert(pow1024(1) == 1024 * pow1024(0));
    assert(pow1024(2) == 1024 * pow1024(1));
    assert(pow1024(3) == 1024 * pow1024(2));
    assert(pow1024(4) == 1024 * pow1024(3));
    assert(pow1024(5) == 1024 * pow1024(4));
    assert(pow1024(6) == 1024 * pow1024(5));
    assert(pow1024(7) == 1024 * pow1024(6));
}

/// `1024^e` grows past any value it divides to below 1024.
proof fn lemma_pow1024_pos(e: nat)
    ensures
        pow1024(e) >= 1,
    decreases e,
{
    if e > 0 {
        lemma_pow1024_pos((e - 1) as nat);
    }
}

/// Renders a byte count for people.
pub fn human_bytes(n: u64) -> (r: String)
    ensures
        r@ == human_bytes_spec(n as nat),
{
    if n < 1024 {
        let mut out = crate::text::u64_to_chars(n);
        out.push('B');
        proof {
            assert(out@ =~= human_bytes_spec(n as nat));
        }
        return string_of(&out);
    }
    let mut div: u64 = 1024;
    let mut exp: u64 = 0;
    let mut m: u64 = n / 1024;
    proof {
        lemma_pow1024_values();
    }
    while m >= 1024
        invariant
            div == pow1024(exp as nat + 1),
            m == (n as nat) / pow1024(exp as nat + 1),
            hb_exp((n as nat) / 1024) == exp + hb_exp(m as nat),
            1 <= div <= n,
            exp <= 5,
            n >= 1024,
        decreases m,
    {
        proof {
            lemma_pow1024_pos(exp as nat + 1);
            assert(pow1024(exp as nat + 2) == 1024 * pow1024(exp as nat + 1));
            vstd::arithmetic::div_mod::lemma_div_denominator(
                n as int,
                pow1024(exp as nat + 1) as int,
                1024,
            );
            assert((n as nat) / pow1024(exp as nat + 2) == m as nat / 1024);
            assert(m >= 1024);
            vstd::arithmetic::div_mod::lemma_fundamental_div_mod(n as int, div as int);
            vstd::arithmetic::div_mod::lemma_mod_bound(n as int, div as int);
            assert(n as int == div * (n as int / div as int) + n as int % div as int);
            assert(n as int / div as int >= 1024);
            assert(div * (n as int / div as int) >= div * 1024) by (nonlinear_arith)
                requires
                    div >= 1,
                    (n as int) / (div as int) >= 1024,
            ;
            assert(div * 1024 <= n);
            assert(exp <= 4) by {
                if exp == 5 {
                    lemma_pow1024_values();
                    assert(pow1024(7) == 1024 * pow1024(6));
                    assert(div * 1024 == pow1024(7));
                }
            }
        }
        div = div * 1024;
        exp = exp + 1;
        m = m / 1024;
    }
    let ghost e = hb_exp((n as nat) / 1024);
    proof {
        assert(hb_exp(m as nat) == 0);
        assert(exp == e);
        lemma_pow1024_pos(exp as nat + 1);
    }
    let half: u64 = div / 2;
    let tenths128: u128 = (10 * (n as u128) + (half as u128)) / (div as u128);
    proof {
        assert(tenths128 == (10 * (n as nat) + (div as nat) / 2) / (div as nat));
        assert((10 * (n as nat) + (div as nat) / 2) / (div as nat) < 20480) by {
            let nn = n as nat;
            let dd = div as nat;
            assert(nn / dd == m);
            assert(m < 1024);
            vstd::arithmetic::div_mod::lemma_fundamental_div_mod(nn as int, dd as int);
            assert(nn as int == dd * (nn as int / dd as int) + nn as int % dd as int);
            assert(nn < dd * 1024) by (nonlinear_arith)
                requires
                    dd >= 1,
                    nn as int == dd * ((nn as int) / (dd as int)) + ((nn as int) % (dd as int)),
                    ((nn as int) / (dd as int)) < 1024,
                    ((nn as int) % (dd as int)) < dd,
            ;
            assert(10 * nn + dd / 2 < dd * 10240 + dd) by (nonlinear_arith)
                requires
                    nn < dd * 1024,
                    dd >= 1,
            ;
            assert((10 * nn + dd / 2) / dd <= 10241) by {
                vstd::arithmetic::div_mod::lemma_div_is_ordered(
                    (10 * nn + dd / 2) as int,
                    (dd * 10240 + dd) as int,
                    dd as int,
                );
                assert(((dd * 10240 + dd) as int) / (dd as int) == 10241) by (nonlinear_arith)
                    requires
                        dd >= 1,
                ;
            }
        }
    }
    let tenths: u64 = tenths128 as u64;
    let whole: u64 = tenths / 10;
    let frac: u64 = tenths % 10;
    let mut out = crate::text::u64_to_chars(whole);
    out.push('.');
    let fc: char = if frac == 0 {
        '0'
    } else if frac == 1 {
        '1'
    } else if frac == 2 {
        '2'
    } else if frac == 3 {
        '3'
    } else if frac == 4 {
        '4'
    } else if frac == 5 {
        '5'
    } else if frac == 6 {
        '6'
    } else if frac == 7 {
        '7'
    } else if frac == 8 {
        '8'
    } else {
        '9'
    };
    out.push(fc);
    let sc: char = if exp == 0 {
        'K'
    } else if exp == 1 {
        'M'
    } else if exp == 2 {
        'G'
    } else if exp == 3 {
        'T'
    } else if exp == 4 {
        'P'
    } else {
        'E'
    };
    proof {
        assert(exp <= 5) by {
            if exp >= 6 {
                assert(pow1024(exp as nat + 1) >= pow1024(7)) by {
                    lemma_pow1024_grows(7, exp as nat + 1);
                }
                assert(pow1024(7) > u64::MAX);
            }
        }
        assert(sc == hb_suffix(e as int));
    }
    out.push(sc);
    out.push('i');
    out.push('B');
    proof {
        assert(fc == digit_char(tenths as int % 10));
        assert(out@ =~= human_bytes_spec(n as nat));
    }
    string_of(&out)
}

/// `pow1024` is monotone in the exponent.
proof fn lemma_pow1024_grows(a: nat, b: nat)
    requires
        a <= b,
    ensures
        pow1024(a) <= pow1024(b),
    decreases b,
{
    if a < b {
        lemma_pow1024_grows(a, (b - 1) as nat);
        lemma_pow1024_pos((b - 1) as nat);
    }
}

/// How much of the plan is left: `total_planned - checked` when a plan is
/// set and unfinished, zero when the plan is met, and `-1` when uncapped.
pub fn stats_remaining(total_planned: i64, checked: i64) -> (r: i64)
    requires
        checked >= 0,
    ensures
        r == if total_planned > 0 {
            if checked >= total_planned {
                0int
            } else {
                total_planned - checked
            }
        } else {
            -1int
        },
{
    if total_planned > 0 {
        if checked >= total_planned {
            0
        } else {
            total_planned - checked
        }
    } else {
        -1
    }
}

/// A valid `/domain/` path: one `<tld>.<ext>` segment, no slashes, with a
/// dot that is neither first nor last. The TLD and extension come back
/// lowercased.
pub open spec fn domain_path_spec(p: Seq<char>) -> Option<(Seq<char>, Seq<char>)> {
    if p.len() == 0 || p.contains('/') {
        Option::None
    } else if (exists|i: int| 0 <= i < p.len() && p[i] == '.') {
        let i = crate::store::last_dot(p);
        if i == 0 || i == p.len() - 1 {
            Option::None
        } else {
            Option::Some((lower(p.take(i)), lower(p.skip(i + 1))))
        }
    } else {
        Option::None
    }
}

/// Splits a `/domain/` request path into its TLD and extension.
pub fn parse_domain_path(path: &str) -> (r: Option<(String, String)>)
    ensures
        match r {
            Option::Some(p) => domain_path_spec(path@) == Option::Some((p.0@, p.1@)),
            Option::None => domain_path_spec(path@) is None,
        },
{
    let v = chars_of(path);
    if v.len() == 0 {
        return None;
    }
    let mut i: usize = 0;
    while i < v.len()
        invariant
            i <= v@.len(),
            v@ == path@,
            forall|j: int| 0 <= j < i ==> v@[j] != '/',
        decreases v@.len() - i,
    {
        if v[i] == '/' {
            proof {
                assert(path@.contains('/'));
            }
            return None;
        }
        i = i + 1;
    }
    proof {
        assert(!path@.contains('/')) by {
            if path@.contains('/') {
                let w = choose|w: int| 0 <= w < path@.len() && path@[w] == '/';
            }
        }
    }
    let mut d: usize = v.len();
    loop
        invariant
            d <= v@.len(),
            v@ == path@,
            path@.len() > 0,
            !path@.contains('/'),
            forall|j: int| d <= j < v@.len() ==> v@[j] != '.',
        decreases d,
    {
        if d == 0 {
            proof {
                assert(forall|j: int| 0 <= j < path@.len() ==> path@[j] != '.');
            }
            return None;
        }
        d = d - 1;
        if v[d] == '.' {
            proof {
                assert(crate::store::last_dot(path@) == d as int) by {
                    assert(path@[d as int] == '.' && (forall|j: int|
                        d < j < path@.len() ==> path@[j] != '.'));
                    let w = crate::store::last_dot(path@);
                    if w != d {
                        assert(0 <= w < path@.len() && path@[w] == '.' && (forall|j: int|
                            w < j < path@.len() ==> path@[j] != '.'));
                    }
                }
            }
            if d == 0 || d == v.len() - 1 {
                return None;
            }
            let mut tld: Vec<char> = Vec::new();
            let mut j: usize = 0;
            while j < d
                invariant
                    j <= d < v@.len(),
                    v@ == path@,
                    tld@ == lower(v@.take(d as int)).take(j as int),
                decreases d - j,
            {
                tld.push(crate::text::lower_char_exec(v[j]));
                j = j + 1;
                proof {
                    assert(tld@ =~= lower(v@.take(d as int)).take(j as int));
                }
            }
            let mut ext: Vec<char> = Vec::new();
            let mut k: usize = d + 1;
            while k < v.len()
                invariant
                    d + 1 <= k <= v@.len(),
                    v@ == path@,
                    ext@ == lower(v@.skip(d as int + 1)).take(k - d - 1),
                decreases v@.len() - k,
            {
                ext.push(crate::text::lower_char_exec(v[k]));
                k = k + 1;
                proof {
                    assert(ext@ =~= lower(v@.skip(d as int + 1)).take(k - d - 1));
                }
            }
            proof {
                assert(tld@ =~= lower(path@.take(d as int)));
                assert(ext@ =~= lower(path@.skip(d as int + 1)));
            }
            return Some((string_of(&tld), string_of(&ext)));
        }
    }
}

/// The plain-text body of a domain listing: every domain on its own line,
/// newline-terminated; an empty listing is a single newline.
pub open spec fn lines_text(ds: Seq<Seq<char>>) -> Seq<char>
    decreases ds.len(),
{
    if ds.len() == 0 {
        Seq::empty()
    } else {
        ds[0] + seq!['\n'] + lines_text(ds.skip(1))
    }
}

pub fn text_body(items: &Vec<String>) -> (r: String)
    ensures
        items@.len() == 0 ==> r@ == seq!['\n'],
        items@.len() > 0 ==> r@ == lines_text(crate::text::views_of(items@)),
{
    if items.len() == 0 {
        let mut out: Vec<char> = Vec::new();
        out.push('\n');
        return string_of(&out);
    }
    let mut out: Vec<char> = Vec::new();
    let mut i: usize = 0;
    proof {
        assert(crate::text::views_of(items@).skip(0) =~= crate::text::views_of(items@));
        assert(out@ + lines_text(crate::text::views_of(items@)) =~= lines_text(
            crate::text::views_of(items@),
        ));
    }
    while i < items.len()
        invariant
            i <= items@.len(),
            lines_text(crate::text::views_of(items@)) == out@ + lines_text(
                crate::text::views_of(items@).skip(i as int),
            ),
        decreases items@.len() - i,
    {
        let iv = chars_of(items[i].as_str());
        append_chars(&mut out, &iv);
        out.push('\n');
        i = i + 1;
        proof {
            let vs = crate::text::views_of(items@);
            assert(vs.skip(i as int - 1)[0] == items@[i - 1]@);
            assert(vs.skip(i as int - 1).skip(1) =~= vs.skip(i as int));
            assert(lines_text(vs.skip(i as int - 1)) == items@[i - 1]@ + seq!['\n'] + lines_text(
                vs.skip(i as int),
            ));
        }
    }
    proof {
        assert(crate::text::views_of(items@).skip(items@.len() as int)
            =~= Seq::<Seq<char>>::empty());
        assert(out@ + Seq::<char>::empty() =~= out@);
    }
    string_of(&out)
}

/// One string as JSON: quoted, with the serializer's escapes.
pub open spec fn json_string(s: Seq<char>) -> Seq<char> {
    seq!['"'] + json_escape(s) + seq!['"']
}

/// The items of a JSON array after the first: each preceded by a comma.
pub open spec fn json_rest(ds: Seq<Seq<char>>) -> Seq<char>
    decreases ds.len(),
{
    if ds.len() == 0 {
        Seq::empty()
    } else {
        seq![','] + json_string(ds[0]) + json_rest(ds.skip(1))
    }
}

/// A JSON array of strings, in order.
pub open spec fn json_array_inner(ds: Seq<Seq<char>>) -> Seq<char> {
    if ds.len() == 0 {
        Seq::empty()
    } else {
        json_string(ds[0]) + json_rest(ds.skip(1))
    }
}

pub open spec fn json_array(ds: Seq<Seq<char>>) -> Seq<char> {
    seq!['['] + json_array_inner(ds) + seq![']']
}

/// The JSON body of a domain listing.
pub fn json_body(items: &Vec<String>) -> (r: String)
    ensures
        r@ == json_array(crate::text::views_of(items@)),
{
    let ghost vs = crate::text::views_of(items@);
    let mut out: Vec<char> = Vec::new();
    out.push('[');
    let mut i: usize = 0;
    proof {
        assert(out@ =~= seq!['[']);
    }
    while i < items.len()
        invariant
            i <= items@.len(),
            vs == crate::text::views_of(items@),
            i == 0 ==> out@ == seq!['['],
            i > 0 ==> seq!['['] + json_array_inner(vs) == out@ + json_rest(vs.skip(i as int)),
        decreases items@.len() - i,
    {
        if i > 0 {
            out.push(',');
        }
        crate::resume::push_json_string(&mut out, items[i].as_str());
        i = i + 1;
        proof {
            assert(vs.skip(i as int - 1)[0] == items@[i - 1]@);
            assert(vs.skip(i as int - 1).skip(1) =~= vs.skip(i as int));
            if i == 1 {
                assert(vs.skip(0) =~= vs);
                assert(json_array_inner(vs) == json_string(items@[0]@) + json_rest(
                    vs.skip(1),
                ));
                assert(seq!['['] + json_array_inner(vs) =~= out@ + json_rest(vs.skip(1)));
            } else {
                assert(json_rest(vs.skip(i as int - 1)) == seq![','] + json_string(
                    items@[i - 1]@,
                ) + json_rest(vs.skip(i as int)));
                assert(seq!['['] + json_array_inner(vs) =~= out@ + json_rest(vs.skip(i as int)));
            }
        }
    }
    out.push(']');
    proof {
        if items@.len() == 0 {
            assert(json_array_inner(vs) =~= Seq::<char>::empty());
            assert(out@ =~= json_array(vs));
        } else {
            assert(vs.skip(items@.len() as int) =~= Seq::<Seq<char>>::empty());
            assert(json_rest(vs.skip(items@.len() as int)) == Seq::<char>::empty());
            assert(out@ =~= json_array(vs));
        }
    }
    string_of(&out)
}

} // verus!
