//! Character and string helpers shared by the whole library.
//!
//! Domains, labels and TLDs are handled as sequences of characters; these
//! helpers give executable trimming, ASCII lowercasing and lexicographic
//! comparison together with the spec functions the contracts are stated over.
use vstd::prelude::*;

verus! {

/// ASCII lowercase of one character: `A`..`Z` map to `a`..`z`, everything
/// else is unchanged.
pub open spec fn lower_char(c: char) -> char {
    if 'A' <= c && c <= 'Z' {
        ((c as u8) + 32) as char
    } else {
        c
    }
}

/// Characterwise ASCII lowercase of a character sequence.
pub open spec fn lower(s: Seq<char>) -> Seq<char> {
    s.map_values(|c: char| lower_char(c))
}

/// Executable ASCII lowercase of one character.
pub fn lower_char_exec(c: char) -> (r: char)
    ensures
        r == lower_char(c),
{
    if 'A' <= c && c <= 'Z' {
        ((c as u8) + 32) as char
    } else {
        c
    }
}

/// Strict lexicographic order on character sequences, by code point.
pub open spec fn lex_lt(a: Seq<char>, b: Seq<char>) -> bool
    decreases a.len(),
{
    if b.len() == 0 {
        false
    } else if a.len() == 0 {
        true
    } else if a[0] != b[0] {
        (a[0] as u32) < (b[0] as u32)
    } else {
        lex_lt(a.skip(1), b.skip(1))
    }
}

/// Relies on `String::push`: appends exactly one character.
#[verifier::external_body]
pub fn push_char(s: &mut String, c: char)
    ensures
        final(s)@ == old(s)@.push(c),
{
    s.push(c);
}

/// The characters of a string, as a vector.
pub fn chars_of(s: &str) -> (r: Vec<char>)
    ensures
        r@ == s@,
{
    let n = s.unicode_len();
    let mut r: Vec<char> = Vec::new();
    let mut i: usize = 0;
    while i < n
        invariant
            i <= n,
            n == s@.len(),
            r@ == s@.take(i as int),
        decreases n - i,
    {
        r.push(s.get_char(i));
        i = i + 1;
        proof {
            assert(r@ =~= s@.take(i as int));
        }
    }
    proof {
        assert(r@ =~= s@);
    }
    r
}

/// A string built from a vector of characters.
pub fn string_of(v: &Vec<char>) -> (r: String)
    ensures
        r@ == v@,
{
    let mut r = String::new();
    let mut i: usize = 0;
    while i < v.len()
        invariant
            i <= v.len(),
            r@ == v@.take(i as int),
        decreases v.len() - i,
    {
        push_char(&mut r, v[i]);
        i = i + 1;
        proof {
            assert(r@ =~= v@.take(i as int));
        }
    }
    proof {
        assert(r@ =~= v@);
    }
    r
}

/// Characterwise ASCII lowercase of a character vector.
pub fn lower_chars(v: &Vec<char>) -> (r: Vec<char>)
    ensures
        r@ == lower(v@),
{
    let mut r: Vec<char> = Vec::new();
    let mut i: usize = 0;
    while i < v.len()
        invariant
            i <= v.len(),
            r@ == lower(v@.take(i as int)),
        decreases v.len() - i,
    {
        r.push(lower_char_exec(v[i]));
        i = i + 1;
        proof {
            assert(r@ =~= lower(v@.take(i as int)));
        }
    }
    proof {
        assert(r@ =~= lower(v@));
    }
    r
}

/// ASCII whitespace, the characters `trim` removes here.
pub open spec fn is_ws(c: char) -> bool {
    c == ' ' || c == '\t' || c == '\n' || c == '\r'
}

pub fn is_ws_exec(c: char) -> (r: bool)
    ensures
        r == is_ws(c),
{
    c == ' ' || c == '\t' || c == '\n' || c == '\r'
}

/// The sequence with leading and trailing ASCII whitespace removed.
pub open spec fn trim_spec(s: Seq<char>) -> Seq<char>
    decreases s.len(),
{
    if s.len() == 0 {
        s
    } else if is_ws(s[0]) {
        trim_spec(s.skip(1))
    } else if is_ws(s.last()) {
        trim_spec(s.drop_last())
    } else {
        s
    }
}

/// Trims ASCII whitespace from both ends of a character vector.
pub fn trim_chars(v: &Vec<char>) -> (r: Vec<char>)
    ensures
        r@ == trim_spec(v@),
{
    let mut lo: usize = 0;
    let mut hi: usize = v.len();
    proof {
        assert(v@.subrange(0, v.len() as int) =~= v@);
    }
    while lo < hi && is_ws_exec(v[lo])
        invariant
            lo <= hi <= v.len(),
            trim_spec(v@) == trim_spec(v@.subrange(lo as int, hi as int)),
        decreases hi - lo,
    {
        proof {
            assert(v@.subrange(lo as int, hi as int).skip(1) =~= v@.subrange(
                lo as int + 1,
                hi as int,
            ));
        }
        lo = lo + 1;
    }
    while lo < hi && is_ws_exec(v[hi - 1])
        invariant
            lo <= hi <= v.len(),
            trim_spec(v@) == trim_spec(v@.subrange(lo as int, hi as int)),
            lo < hi ==> !is_ws(v@[lo as int]),
        decreases hi - lo,
    {
        proof {
            assert(v@.subrange(lo as int, hi as int).drop_last() =~= v@.subrange(
                lo as int,
                hi as int - 1,
            ));
        }
        hi = hi - 1;
    }
    let mut r: Vec<char> = Vec::new();
    let mut i: usize = lo;
    while i < hi
        invariant
            lo <= i <= hi <= v.len(),
            r@ == v@.subrange(lo as int, i as int),
        decreases hi - i,
    {
        r.push(v[i]);
        i = i + 1;
        proof {
            assert(r@ =~= v@.subrange(lo as int, i as int));
        }
    }
    proof {
        let mid = v@.subrange(lo as int, hi as int);
        assert(r@ =~= mid);
        if lo < hi {
            assert(trim_spec(mid) == mid);
        } else {
            assert(mid =~= Seq::<char>::empty());
            assert(trim_spec(mid) == mid);
        }
    }
    r
}

/// Trims ASCII whitespace from both ends of a string.
pub fn trim_str(s: &str) -> (r: String)
    ensures
        r@ == trim_spec(s@),
{
    let v = chars_of(s);
    let t = trim_chars(&v);
    string_of(&t)
}

/// Executable strict lexicographic comparison of character vectors.
pub fn lex_lt_chars(a: &Vec<char>, b: &Vec<char>) -> (r: bool)
    ensures
        r == lex_lt(a@, b@),
{
    let mut i: usize = 0;
    proof {
        assert(a@.skip(0) =~= a@);
        assert(b@.skip(0) =~= b@);
    }
    loop
        invariant
            i <= a.len(),
            i <= b.len(),
            a@.take(i as int) == b@.take(i as int),
            lex_lt(a@, b@) == lex_lt(a@.skip(i as int), b@.skip(i as int)),
        decreases a.len() - i,
    {
        if i >= b.len() {
            proof {
                assert(b@.skip(i as int) =~= Seq::<char>::empty());
            }
            return false;
        }
        if i >= a.len() {
            proof {
                assert(a@.skip(i as int) =~= Seq::<char>::empty());
                assert(b@.skip(i as int).len() > 0);
            }
            return true;
        }
        let ca = a[i];
        let cb = b[i];
        if ca != cb {
            return (ca as u32) < (cb as u32);
        }
        proof {
            assert(a@.skip(i as int).skip(1) =~= a@.skip(i as int + 1));
            assert(b@.skip(i as int).skip(1) =~= b@.skip(i as int + 1));
            assert(a@.take(i as int + 1) =~= b@.take(i as int + 1));
        }
        i = i + 1;
    }
}

/// Executable equality of character vectors.
pub fn eq_chars(a: &Vec<char>, b: &Vec<char>) -> (r: bool)
    ensures
        r == (a@ == b@),
{
    if a.len() != b.len() {
        return false;
    }
    let mut i: usize = 0;
    while i < a.len()
        invariant
            i <= a.len(),
            a.len() == b.len(),
            a@.take(i as int) == b@.take(i as int),
        decreases a.len() - i,
    {
        if a[i] != b[i] {
            return false;
        }
        proof {
            assert(a@.take(i as int + 1) =~= b@.take(i as int + 1));
        }
        i = i + 1;
    }
    proof {
        assert(a@ =~= a@.take(a.len() as int));
        assert(b@ =~= b@.take(b.len() as int));
    }
    true
}

/// The decimal digit character for `d`.
pub open spec fn digit_char(d: int) -> char {
    [' ', '0', '1', '2', '3', '4', '5', '6', '7', '8', '9'][d + 1]
}

/// The decimal rendering of a non-negative integer.
pub open spec fn dec_str(n: int) -> Seq<char>
    decreases n,
{
    if n <= 0 {
        seq!['0']
    } else {
        dec_str_pos(n)
    }
}

pub open spec fn dec_str_pos(n: int) -> Seq<char>
    decreases n,
{
    if n <= 0 {
        Seq::empty()
    } else {
        dec_str_pos(n / 10).push(digit_char(n % 10))
    }
}

/// Renders `n` in decimal.
pub fn u64_to_chars(n: u64) -> (r: Vec<char>)
    ensures
        r@ == dec_str(n as int),
{
    if n == 0 {
        let mut r: Vec<char> = Vec::new();
        r.push('0');
        proof {
            assert(r@ =~= dec_str(0));
        }
        return r;
    }
    let mut rev: Vec<char> = Vec::new();
    let mut m: u64 = n;
    while m > 0
        invariant
            dec_str_pos(n as int) == dec_str_pos(m as int) + rev@.reverse(),
        decreases m,
    {
        let d = m % 10;
        let c: char = if d == 0 {
            '0'
        } else if d == 1 {
            '1'
        } else if d == 2 {
            '2'
        } else if d == 3 {
            '3'
        } else if d == 4 {
            '4'
        } else if d == 5 {
            '5'
        } else if d == 6 {
            '6'
        } else if d == 7 {
            '7'
        } else if d == 8 {
            '8'
        } else {
            '9'
        };
        proof {
            assert(c == digit_char(m as int % 10));
            assert(dec_str_pos(m as int) == dec_str_pos(m as int / 10).push(
                digit_char(m as int % 10),
            ));
            assert(rev@.push(c).reverse() =~= seq![c] + rev@.reverse());
            assert(dec_str_pos(m as int / 10) + (seq![c] + rev@.reverse()) =~= dec_str_pos(
                m as int / 10,
            ).push(c) + rev@.reverse());
        }
        rev.push(c);
        m = m / 10;
    }
    proof {
        assert(dec_str_pos(0) + rev@.reverse() =~= rev@.reverse());
        assert(dec_str(n as int) == rev@.reverse());
    }
    let mut r: Vec<char> = Vec::new();
    let mut i: usize = rev.len();
    while i > 0
        invariant
            i <= rev.len(),
            r@ == rev@.skip(i as int).reverse(),
        decreases i,
    {
        i = i - 1;
        r.push(rev[i]);
        proof {
            assert(r@ =~= rev@.skip(i as int).reverse());
        }
    }
    proof {
        assert(rev@.skip(0) =~= rev@);
    }
    r
}

/// The views of a sequence of strings.
pub open spec fn views_of(ts: Seq<String>) -> Seq<Seq<char>> {
    ts.map_values(|t: String| t@)
}

/// Appends all characters of `src` to `dst`.
pub fn append_chars(dst: &mut Vec<char>, src: &Vec<char>)
    ensures
        final(dst)@ == old(dst)@ + src@,
{
    let mut i: usize = 0;
    while i < src.len()
        invariant
            i <= src.len(),
            dst@ == old(dst)@ + src@.take(i as int),
        decreases src.len() - i,
    {
        dst.push(src[i]);
        i = i + 1;
        proof {
            assert(dst@ =~= old(dst)@ + src@.take(i as int));
        }
    }
    proof {
        assert(old(dst)@ + src@.take(src.len() as int) =~= old(dst)@ + src@);
    }
}

/// Renders `n` in decimal as a string.
pub fn u64_to_string(n: u64) -> (r: String)
    ensures
        r@ == dec_str(n as int),
{
    let v = u64_to_chars(n);
    string_of(&v)
}


/// Strict lexicographic order is transitive.
pub proof fn lemma_lex_lt_trans(a: Seq<char>, b: Seq<char>, c: Seq<char>)
    requires
        lex_lt(a, b),
        lex_lt(b, c),
    ensures
        lex_lt(a, c),
    decreases a.len() + b.len() + c.len(),
{
    if a.len() == 0 {
    } else {
        if a[0] != b[0] {
            if b[0] != c[0] {
                assert((a[0] as u32) < (c[0] as u32));
            }
        } else {
            if b[0] != c[0] {
                assert((a[0] as u32) < (c[0] as u32));
            } else {
                lemma_lex_lt_trans(a.skip(1), b.skip(1), c.skip(1));
            }
        }
    }
}


/// Views distribute over appending one string.
pub proof fn lemma_views_push(a: Seq<String>, x: String)
    ensures
        views_of(a.push(x)) == views_of(a).push(x@),
{
    assert forall|i: int| 0 <= i < a.len() + 1 implies views_of(a.push(x))[i] == views_of(
        a,
    ).push(x@)[i] by {
        if i < a.len() {
            assert(a.push(x)[i] == a[i]);
        } else {
            assert(a.push(x)[i] == x);
        }
    }
    assert(views_of(a.push(x)) =~= views_of(a).push(x@));
}


/// Lexicographic order is total: two sequences are equal or one is less.
pub proof fn lemma_lex_trichotomy(a: Seq<char>, b: Seq<char>)
    ensures
        a == b || lex_lt(a, b) || lex_lt(b, a),
    decreases a.len(),
{
    if a.len() == 0 {
        if b.len() == 0 {
            assert(a =~= b);
        }
    } else if b.len() == 0 {
    } else if a[0] != b[0] {
        let au = a[0] as u32;
        let bu = b[0] as u32;
        assert(au != bu) by {
            char_cast_injective(a[0], b[0]);
        }
    } else {
        lemma_lex_trichotomy(a.skip(1), b.skip(1));
        if a.skip(1) == b.skip(1) {
            assert(a.skip(1).len() == a.len() - 1);
            assert(b.skip(1).len() == b.len() - 1);
            assert(a.len() == b.len());
            assert forall|i: int| 0 <= i < a.len() implies a[i] == b[i] by {
                if i > 0 {
                    assert(a.skip(1)[i - 1] == b.skip(1)[i - 1]);
                }
            }
            assert(a =~= b);
        }
    }
}

proof fn char_cast_injective(c: char, d: char)
    ensures
        c as u32 == d as u32 ==> c == d,
{
}

/// Sequences in strictly ascending lexicographic order, without duplicates.
pub open spec fn strictly_sorted(ds: Seq<Seq<char>>) -> bool {
    forall|i: int, j: int| 0 <= i < j < ds.len() ==> lex_lt(#[trigger] ds[i], #[trigger] ds[j])
}

/// Inserting at the right place keeps a sorted list sorted and adds exactly
/// the new element.
proof fn lemma_insert_sorted(oldviews: Seq<Seq<char>>, nv: Seq<Seq<char>>, i: int, x: Seq<char>)
    requires
        strictly_sorted(oldviews),
        0 <= i <= oldviews.len(),
        nv.len() == oldviews.len() + 1,
        forall|j: int| 0 <= j < i ==> #[trigger] nv[j] == oldviews[j],
        nv[i] == x,
        forall|j: int| i < j < nv.len() ==> #[trigger] nv[j] == oldviews[j - 1],
        forall|j: int| 0 <= j < i ==> lex_lt(#[trigger] oldviews[j], x),
        i < oldviews.len() ==> lex_lt(x, oldviews[i]),
    ensures
        strictly_sorted(nv),
        forall|d: Seq<char>| nv.contains(d) <==> (oldviews.contains(d) || d == x),
{
    assert forall|a: int, b: int| 0 <= a < b < nv.len() implies lex_lt(
        #[trigger] nv[a],
        #[trigger] nv[b],
    ) by {
        if b < i {
            assert(lex_lt(oldviews[a], oldviews[b]));
        } else if b == i {
            assert(lex_lt(oldviews[a], x));
        } else if a < i {
            assert(nv[b] == oldviews[b - 1]);
            assert(lex_lt(oldviews[a], x));
            assert(i <= b - 1 < oldviews.len());
            if i == b - 1 {
                lemma_lex_lt_trans(oldviews[a], x, oldviews[b - 1]);
            } else {
                assert(lex_lt(x, oldviews[i]));
                assert(lex_lt(oldviews[i], oldviews[b - 1]));
                lemma_lex_lt_trans(oldviews[a], x, oldviews[i]);
                lemma_lex_lt_trans(oldviews[a], oldviews[i], oldviews[b - 1]);
            }
        } else if a == i {
            if b - 1 == i {
                assert(lex_lt(x, oldviews[i]));
            } else {
                assert(lex_lt(x, oldviews[i]));
                assert(lex_lt(oldviews[i], oldviews[b - 1]));
                lemma_lex_lt_trans(x, oldviews[i], oldviews[b - 1]);
            }
        } else {
            assert(lex_lt(oldviews[a - 1], oldviews[b - 1]));
        }
    }
    assert forall|d: Seq<char>| nv.contains(d) <==> (oldviews.contains(d) || d == x) by {
        if nv.contains(d) {
            let w = choose|w: int| 0 <= w < nv.len() && nv[w] == d;
            if w < i {
                assert(oldviews[w] == d);
                assert(oldviews.contains(d));
            } else if w > i {
                assert(oldviews[w - 1] == d);
                assert(oldviews.contains(d));
            }
        }
        if oldviews.contains(d) {
            let w = choose|w: int| 0 <= w < oldviews.len() && oldviews[w] == d;
            if w < i {
                assert(nv[w] == d);
            } else {
                assert(nv[w + 1] == d);
            }
            assert(nv.contains(d));
        }
        if d == x {
            assert(nv[i] == d);
            assert(nv.contains(d));
        }
    }
}

/// Inserts a string into a sorted list unless it is already there, keeping
/// the order strict.
pub fn insert_sorted_unique(v: &mut Vec<String>, x: String)
    requires
        strictly_sorted(views_of(old(v)@)),
    ensures
        strictly_sorted(views_of(final(v)@)),
        forall|d: Seq<char>|
            views_of(final(v)@).contains(d) <==> (views_of(old(v)@).contains(d) || d == x@),
{
    let xv = chars_of(x.as_str());
    let mut i: usize = 0;
    loop
        invariant
            i <= v@.len(),
            *v == *old(v),
            strictly_sorted(views_of(v@)),
            xv@ == x@,
            forall|j: int| 0 <= j < i ==> lex_lt(#[trigger] views_of(v@)[j], x@),
        decreases v@.len() - i,
    {
        let ghost oldviews = views_of(v@);
        if i == v.len() {
            v.push(x);
            proof {
                let nv = views_of(v@);
                assert forall|j: int| 0 <= j < i implies #[trigger] nv[j] == oldviews[j] by {
                    assert(v@[j] == old(v)@[j]);
                }
                assert(nv[i as int] == x@);
                lemma_insert_sorted(oldviews, nv, i as int, x@);
            }
            return ;
        }
        let cv = chars_of(v[i].as_str());
        proof {
            assert(views_of(v@)[i as int] == v@[i as int]@);
        }
        if eq_chars(&cv, &xv) {
            proof {
                assert(views_of(v@)[i as int] == x@);
                assert(views_of(v@).contains(x@));
            }
            return ;
        }
        if !lex_lt_chars(&cv, &xv) {
            proof {
                lemma_lex_trichotomy(x@, v@[i as int]@);
                assert(lex_lt(x@, views_of(v@)[i as int]));
            }
            v.insert(i, x);
            proof {
                let nv = views_of(v@);
                assert forall|j: int| 0 <= j < i implies #[trigger] nv[j] == oldviews[j] by {
                    assert(v@[j] == old(v)@[j]);
                }
                assert(nv[i as int] == x@);
                assert forall|j: int| i < j < nv.len() implies #[trigger] nv[j] == oldviews[j
                    - 1] by {
                    assert(v@[j] == old(v)@[j - 1]);
                }
                lemma_insert_sorted(oldviews, nv, i as int, x@);
            }
            return ;
        }
        i = i + 1;
    }
}

} // verus!
