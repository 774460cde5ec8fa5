//! Deterministic, resumable enumeration of candidate domains.
//!
//! Labels of each length are visited in lexicographic order by a fixed-width
//! odometer over the alphabet; every valid label is combined with each
//! configured TLD in order. A lowercased resume cursor filters the walk so a
//! run can continue where an earlier one stopped.
use vstd::prelude::*;

use crate::config::GeneratorConfig;
use crate::text::{lex_lt, lower, lower_chars, lex_lt_chars, eq_chars, chars_of, string_of,
    trim_chars};

verus! {

/// `k` to the `n`, used as the count of digit vectors of width `n`.
pub open spec fn base_pow(k: nat, n: nat) -> nat
    decreases n,
{
    if n == 0 {
        1
    } else {
        k * base_pow(k, (n - 1) as nat)
    }
}

/// Every digit is below the base.
pub open spec fn valid_digits(d: Seq<usize>, k: nat) -> bool {
    forall|i: int| 0 <= i < d.len() ==> (#[trigger] d[i]) < k
}

/// All digits at their maximum: the last combination of a given width.
pub open spec fn is_max_digits(d: Seq<usize>, k: nat) -> bool {
    forall|i: int| 0 <= i < d.len() ==> (#[trigger] d[i]) + 1 == k
}

/// The all-zero digit vector of width `n`.
pub open spec fn zero_digits(n: nat) -> Seq<usize> {
    Seq::new(n, |i: int| 0usize)
}

/// The number a digit vector denotes in base `k`, most significant first.
pub open spec fn odo_val(d: Seq<usize>, k: nat) -> nat
    decreases d.len(),
{
    if d.len() == 0 {
        0
    } else {
        (odo_val(d.drop_last(), k) * k + d.last()) as nat
    }
}

/// The next digit vector of the same width: increment the last digit,
/// carrying into the digits before it.
pub open spec fn odo_succ(d: Seq<usize>, k: nat) -> Seq<usize>
    decreases d.len(),
{
    if d.len() == 0 {
        d
    } else if d.last() + 1 < k {
        d.update(d.len() - 1, (d.last() + 1) as usize)
    } else {
        odo_succ(d.drop_last(), k).push(0)
    }
}

/// A digit vector denotes less than `k^width`.
pub proof fn lemma_odo_val_bound(d: Seq<usize>, k: nat)
    requires
        valid_digits(d, k),
        k >= 1,
    ensures
        odo_val(d, k) < base_pow(k, d.len()),
    decreases d.len(),
{
    if d.len() == 0 {
    } else {
        lemma_odo_val_bound(d.drop_last(), k);
        let v = odo_val(d.drop_last(), k);
        let p = base_pow(k, (d.len() - 1) as nat);
        assert(d.last() < k);
        assert(v + 1 <= p);
        assert(base_pow(k, d.len()) == k * p);
        assert(v * k + d.last() < (v + 1) * k) by (nonlinear_arith)
            requires
                d.last() < k,
                k >= 1,
        ;
        assert((v + 1) * k <= p * k) by (nonlinear_arith)
            requires
                v + 1 <= p,
                k >= 1,
        ;
    }
}

/// Incrementing a digit vector that is not at its maximum adds one to its
/// value and keeps the digits valid.
pub proof fn lemma_odo_succ(d: Seq<usize>, k: nat)
    requires
        valid_digits(d, k),
        1 <= k <= usize::MAX,
        !is_max_digits(d, k),
    ensures
        odo_succ(d, k).len() == d.len(),
        valid_digits(odo_succ(d, k), k),
        odo_val(odo_succ(d, k), k) == odo_val(d, k) + 1,
    decreases d.len(),
{
    assert(d.len() > 0);
    let s = odo_succ(d, k);
    if d.last() + 1 < k {
        assert(s == d.update(d.len() - 1, (d.last() + 1) as usize));
        assert(s.drop_last() =~= d.drop_last());
        assert(d.last() + 1 <= usize::MAX);
        assert(s.last() == d.last() + 1);
        assert(odo_val(s, k) == odo_val(d.drop_last(), k) * k + d.last() + 1);
    } else {
        assert(d.last() + 1 == k);
        let e = d.drop_last();
        assert(!is_max_digits(e, k)) by {
            if is_max_digits(e, k) {
                assert forall|i: int| 0 <= i < d.len() implies (#[trigger] d[i]) + 1 == k by {
                    if i < d.len() - 1 {
                        assert(e[i] + 1 == k);
                    }
                }
            }
        }
        lemma_odo_succ(e, k);
        assert(s == odo_succ(e, k).push(0));
        assert(s.drop_last() =~= odo_succ(e, k));
        assert(odo_val(s, k) == (odo_val(e, k) + 1) * k);
        assert((odo_val(e, k) + 1) * k == odo_val(e, k) * k + k) by (nonlinear_arith);
        assert(odo_val(d, k) == odo_val(e, k) * k + d.last());
    }
}

/// Advances the odometer in place. Returns true exactly when the digits were
/// at their maximum, in which case they wrap to all zeros.
pub fn odo_step(idx: &mut Vec<usize>, k: usize) -> (overflow: bool)
    requires
        valid_digits(old(idx)@, k as nat),
        k >= 1,
    ensures
        final(idx)@.len() == old(idx)@.len(),
        valid_digits(final(idx)@, k as nat),
        overflow == is_max_digits(old(idx)@, k as nat),
        !overflow ==> final(idx)@ == odo_succ(old(idx)@, k as nat),
        overflow ==> final(idx)@ == zero_digits(old(idx)@.len()),
{
    let ghost orig = idx@;
    let mut i: usize = idx.len();
    while i > 0
        invariant
            i <= idx.len(),
            orig == old(idx)@,
            idx@.len() == orig.len(),
            k >= 1,
            valid_digits(orig, k as nat),
            forall|j: int| 0 <= j < i ==> #[trigger] idx@[j] == orig[j],
            forall|j: int| i <= j < idx@.len() ==> #[trigger] idx@[j] == 0,
            forall|j: int| i <= j < orig.len() ==> #[trigger] orig[j] + 1 == k,
        decreases i,
    {
        i = i - 1;
        proof {
            assert(idx@[i as int] == orig[i as int]);
            assert(orig[i as int] < k);
        }
        if idx[i] + 1 < k {
            let v = idx[i];
            idx.set(i, v + 1);
            proof {
                lemma_succ_shape(orig, k as nat, i as int);
                assert(idx@ =~= orig.take(i as int + 1).update(i as int, (orig[i as int]
                    + 1) as usize) + zero_digits((orig.len() - i - 1) as nat));
                assert(!is_max_digits(orig, k as nat)) by {
                    assert(orig[i as int] + 1 < k);
                }
            }
            return false;
        } else {
            idx.set(i, 0);
            proof {
                assert(orig[i as int] + 1 == k);
            }
        }
    }
    proof {
        assert(is_max_digits(orig, k as nat));
        assert(idx@ =~= zero_digits(orig.len()));
    }
    true
}

/// Shape of the successor when a suffix of maximal digits wraps: the digit at
/// `i` goes up by one and everything after it becomes zero.
proof fn lemma_succ_shape(d: Seq<usize>, k: nat, i: int)
    requires
        valid_digits(d, k),
        k >= 1,
        0 <= i < d.len(),
        d[i] + 1 < k,
        forall|j: int| i < j < d.len() ==> #[trigger] d[j] + 1 == k,
    ensures
        odo_succ(d, k) == d.take(i + 1).update(i, (d[i] + 1) as usize) + zero_digits(
            (d.len() - i - 1) as nat,
        ),
    decreases d.len(),
{
    if i == d.len() - 1 {
        assert(odo_succ(d, k) == d.update(d.len() - 1, (d.last() + 1) as usize));
        assert(d.update(d.len() - 1, (d.last() + 1) as usize) =~= d.take(i + 1).update(
            i,
            (d[i] + 1) as usize,
        ) + zero_digits(0));
    } else {
        assert(d.last() + 1 == k);
        let e = d.drop_last();
        lemma_succ_shape(e, k, i);
        assert(e.take(i + 1) =~= d.take(i + 1));
        assert(odo_succ(d, k) == odo_succ(e, k).push(0));
        assert(odo_succ(e, k).push(0) =~= d.take(i + 1).update(i, (d[i] + 1) as usize)
            + zero_digits((d.len() - i - 1) as nat));
    }
}


/// The hyphen rules a label must obey.
#[derive(Clone, Copy, PartialEq, Eq, Structural)]
pub struct HyphenPolicy {
    pub allow: bool,
    pub forbid_leading: bool,
    pub forbid_trailing: bool,
    pub forbid_double: bool,
}

/// A label is valid when every hyphen in it is permitted: hyphens allowed at
/// all, not leading, not trailing, and not doubled, as the policy demands.
pub open spec fn valid_label(label: Seq<char>, p: HyphenPolicy) -> bool {
    forall|i: int|
        0 <= i < label.len() && (#[trigger] label[i]) == '-' ==> {
            &&& p.allow
            &&& (i == 0 ==> !p.forbid_leading)
            &&& (i == label.len() - 1 ==> !p.forbid_trailing)
            &&& (i > 0 && label[i - 1] == '-' ==> !p.forbid_double)
        }
}

/// The label a digit vector denotes: each digit picks its alphabet character.
pub open spec fn label_of(alpha: Seq<char>, digits: Seq<usize>) -> Seq<char> {
    digits.map_values(|d: usize| alpha[d as int])
}

/// All settings the enumeration depends on.
pub struct GenSpec {
    pub alpha: Seq<char>,
    pub tlds: Seq<Seq<char>>,
    pub policy: HyphenPolicy,
    pub max_len: nat,
    pub resume: Seq<char>,
}

/// A well-formed enumeration position.
pub open spec fn pos_wf(g: GenSpec, len: nat, digits: Seq<usize>, ti: nat) -> bool {
    &&& 1 <= g.alpha.len() <= usize::MAX
    &&& digits.len() == len
    &&& valid_digits(digits, g.alpha.len())
    &&& ti <= g.tlds.len()
}

/// Everything the walk emits from a given position on.
///
/// The walk visits, for each length up to `g.max_len`, every digit vector in
/// odometer order, and for each valid label every TLD in order. Until
/// `started` is set, a candidate is emitted only once its lowercase form
/// exceeds the resume cursor; meeting the cursor exactly sets `started`
/// without re-emitting it.
pub open spec fn emit_seq(g: GenSpec, len: nat, digits: Seq<usize>, ti: nat, started: bool) -> Seq<
    Seq<char>,
>
    decreases
            g.max_len + 1 - len,
            base_pow(g.alpha.len(), len) - odo_val(digits, g.alpha.len()),
            g.tlds.len() - ti,
        when pos_wf(g, len, digits, ti)
{
    let k = g.alpha.len();
    if len > g.max_len {
        Seq::empty()
    } else if ti < g.tlds.len() {
        let label = label_of(g.alpha, digits);
        if valid_label(label, g.policy) {
            let d = label + g.tlds[ti as int];
            let dl = lower(d);
            if started || lex_lt(g.resume, dl) {
                seq![d] + emit_seq(g, len, digits, ti + 1, true)
            } else if dl == g.resume {
                emit_seq(g, len, digits, ti + 1, true)
            } else {
                emit_seq(g, len, digits, ti + 1, started)
            }
        } else {
            emit_seq(g, len, digits, g.tlds.len(), started)
        }
    } else if !is_max_digits(digits, k) {
        proof {
            lemma_odo_succ(digits, k);
            lemma_odo_val_bound(digits, k);
        }
        emit_seq(g, len, odo_succ(digits, k), 0, started)
    } else {
        emit_seq(g, (len + 1) as nat, zero_digits((len + 1) as nat), 0, started)
    }
}

/// Everything a fresh walk emits, starting at width `min_len`.
pub open spec fn generated(g: GenSpec, min_len: nat, started: bool) -> Seq<Seq<char>> {
    emit_seq(g, min_len, zero_digits(min_len), 0, started)
}

/// The normal form of one configured TLD: trimmed and lowercased.
pub open spec fn norm_tld(t: Seq<char>) -> Seq<char> {
    lower(crate::text::trim_spec(t))
}

/// Whether a configured TLD is used: non-blank and dot-prefixed once normalized.
pub open spec fn keep_tld(t: Seq<char>) -> bool {
    norm_tld(t).len() > 0 && norm_tld(t)[0] == '.'
}

/// The TLDs the walk uses, in configuration order.
pub open spec fn normalize_tld_list(ts: Seq<Seq<char>>) -> Seq<Seq<char>> {
    ts.filter(|t: Seq<char>| keep_tld(t)).map_values(|t: Seq<char>| norm_tld(t))
}

/// The alphabet in force: the configured one, or the default when empty.
pub open spec fn default_alphabet() -> Seq<char> {
    "abcdefghijklmnopqrstuvwxyz0123456789-"@
}

pub open spec fn chosen_alphabet(a: Seq<char>) -> Seq<char> {
    if a.len() == 0 {
        default_alphabet()
    } else {
        a
    }
}

pub open spec fn policy_of(gc: GeneratorConfig) -> HyphenPolicy {
    HyphenPolicy {
        allow: gc.allow_hyphen,
        forbid_leading: gc.forbid_leading_hyphen,
        forbid_trailing: gc.forbid_trailing_hyphen,
        forbid_double: gc.forbid_double_hyphen,
    }
}

/// The settings a configuration and resume cursor denote.
pub open spec fn gen_spec_of(gc: GeneratorConfig, resume_from: Seq<char>) -> GenSpec {
    GenSpec {
        alpha: chosen_alphabet(gc.alphabet@),
        tlds: normalize_tld_list(crate::text::views_of(gc.tlds@)),
        policy: policy_of(gc),
        max_len: gc.max_length as nat,
        resume: lower(resume_from),
    }
}

/// Builds the label a digit vector denotes.
pub fn build_label(alpha: &Vec<char>, idx: &Vec<usize>) -> (r: Vec<char>)
    requires
        valid_digits(idx@, alpha@.len() as nat),
    ensures
        r@ == label_of(alpha@, idx@),
{
    let mut r: Vec<char> = Vec::new();
    let mut i: usize = 0;
    while i < idx.len()
        invariant
            i <= idx.len(),
            valid_digits(idx@, alpha@.len() as nat),
            r@ == label_of(alpha@, idx@.take(i as int)),
        decreases idx.len() - i,
    {
        let d = idx[i];
        r.push(alpha[d]);
        i = i + 1;
        proof {
            assert(r@ =~= label_of(alpha@, idx@.take(i as int)));
        }
    }
    proof {
        assert(idx@.take(idx@.len() as int) =~= idx@);
    }
    r
}

/// Checks the hyphen rules on a label.
pub fn check_label(label: &Vec<char>, p: &HyphenPolicy) -> (r: bool)
    ensures
        r == valid_label(label@, *p),
{
    let mut prev_hyphen = false;
    let mut i: usize = 0;
    while i < label.len()
        invariant
            i <= label.len(),
            prev_hyphen == (i > 0 && label@[i as int - 1] == '-'),
            forall|j: int|
                0 <= j < i && (#[trigger] label@[j]) == '-' ==> {
                    &&& p.allow
                    &&& (j == 0 ==> !p.forbid_leading)
                    &&& (j == label@.len() - 1 ==> !p.forbid_trailing)
                    &&& (j > 0 && label@[j - 1] == '-' ==> !p.forbid_double)
                },
        decreases label.len() - i,
    {
        let c = label[i];
        if c == '-' {
            if !p.allow || (p.forbid_leading && i == 0) || (p.forbid_trailing && i == label.len()
                - 1) || (p.forbid_double && prev_hyphen) {
                return false;
            }
            prev_hyphen = true;
        } else {
            prev_hyphen = false;
        }
        i = i + 1;
    }
    true
}

/// A single pass of the candidate walk, driven one candidate at a time.
pub struct Generator {
    pub alphabet: Vec<char>,
    pub tlds: Vec<String>,
    pub policy: HyphenPolicy,
    pub max_length: usize,
    pub resume: Vec<char>,
    pub cur_len: usize,
    pub idx: Vec<usize>,
    pub ti: usize,
    pub started: bool,
    pub finished: bool,
}

impl Generator {
    /// The settings this generator walks.
    pub open spec fn gspec(self) -> GenSpec {
        GenSpec {
            alpha: self.alphabet@,
            tlds: crate::text::views_of(self.tlds@),
            policy: self.policy,
            max_len: self.max_length as nat,
            resume: self.resume@,
        }
    }

    pub open spec fn wf(self) -> bool {
        &&& 1 <= self.alphabet@.len()
        &&& self.max_length < usize::MAX
        &&& (!self.finished ==> pos_wf(
            self.gspec(),
            self.cur_len as nat,
            self.idx@,
            self.ti as nat,
        ))
        &&& (!self.finished ==> self.cur_len <= self.max_length)
    }

    /// Everything this generator has yet to emit.
    pub open spec fn pending(self) -> Seq<Seq<char>> {
        if self.finished {
            Seq::empty()
        } else {
            emit_seq(self.gspec(), self.cur_len as nat, self.idx@, self.ti as nat, self.started)
        }
    }

    /// Starts a pass: width `min_length`, all-zero odometer, first TLD, with
    /// the resume cursor lowercased. An empty cursor emits from the start.
    pub fn new(gc: &GeneratorConfig, resume_from: &str) -> (g: Generator)
        requires
            gc.min_length >= 1,
            gc.max_length >= gc.min_length,
        ensures
            g.wf(),
            g.gspec() == gen_spec_of(*gc, resume_from@),
            g.pending() == generated(
                gen_spec_of(*gc, resume_from@),
                gc.min_length as nat,
                resume_from@.len() == 0,
            ),
    {
        let alphabet: Vec<char> = if gc.alphabet.as_str().unicode_len() == 0 {
            let a = chars_of("abcdefghijklmnopqrstuvwxyz0123456789-");
            proof {
                reveal_strlit("abcdefghijklmnopqrstuvwxyz0123456789-");
            }
            a
        } else {
            chars_of(gc.alphabet.as_str())
        };
        let mut tlds: Vec<String> = Vec::new();
        let mut i: usize = 0;
        while i < gc.tlds.len()
            invariant
                i <= gc.tlds@.len(),
                crate::text::views_of(tlds@) == normalize_tld_list(
                    crate::text::views_of(gc.tlds@).take(i as int),
                ),
            decreases gc.tlds@.len() - i,
        {
            let raw = chars_of(gc.tlds[i].as_str());
            let trimmed = trim_chars(&raw);
            let t = lower_chars(&trimmed);
            if t.len() > 0 && t[0] == '.' {
                tlds.push(string_of(&t));
            }
            i = i + 1;
            proof {
                lemma_normalize_tld_step(crate::text::views_of(gc.tlds@), i as int);
                assert(crate::text::views_of(gc.tlds@).take(i - 1) == crate::text::views_of(
                    gc.tlds@,
                ).take(i - 1));
                if keep_tld(gc.tlds@[i - 1]@) {
                    assert(crate::text::views_of(tlds@) =~= normalize_tld_list(
                        crate::text::views_of(gc.tlds@).take(i as int),
                    ));
                } else {
                    assert(crate::text::views_of(tlds@) =~= normalize_tld_list(
                        crate::text::views_of(gc.tlds@).take(i as int),
                    ));
                }
            }
        }
        proof {
            assert(crate::text::views_of(gc.tlds@).take(gc.tlds@.len() as int) =~= crate::text::views_of(
                gc.tlds@,
            ));
        }
        let resume_raw = chars_of(resume_from);
        let resume = lower_chars(&resume_raw);
        let min_len = gc.min_length as usize;
        let mut idx: Vec<usize> = Vec::new();
        let mut j: usize = 0;
        while j < min_len
            invariant
                j <= min_len,
                idx@ =~= zero_digits(j as nat),
            decreases min_len - j,
        {
            idx.push(0);
            j = j + 1;
            proof {
                assert(idx@ =~= zero_digits(j as nat));
            }
        }
        let started = resume.len() == 0;
        let g = Generator {
            alphabet,
            tlds,
            policy: HyphenPolicy {
                allow: gc.allow_hyphen,
                forbid_leading: gc.forbid_leading_hyphen,
                forbid_trailing: gc.forbid_trailing_hyphen,
                forbid_double: gc.forbid_double_hyphen,
            },
            max_length: gc.max_length as usize,
            resume,
            cur_len: min_len,
            idx,
            ti: 0,
            started,
            finished: false,
        };
        proof {
            assert(g.gspec().tlds == gen_spec_of(*gc, resume_from@).tlds);
            assert(g.gspec() == gen_spec_of(*gc, resume_from@));
            assert(lower(resume_from@).len() == resume_from@.len());
        }
        g
    }
}

/// One step of TLD normalization: extending the input by one entry extends
/// the normalized list by that entry's normal form when it is kept.
proof fn lemma_normalize_tld_step(ts: Seq<Seq<char>>, i: int)
    requires
        0 < i <= ts.len(),
    ensures
        keep_tld(ts[i - 1]) ==> normalize_tld_list(ts.take(i)) == normalize_tld_list(
            ts.take(i - 1),
        ).push(norm_tld(ts[i - 1])),
        !keep_tld(ts[i - 1]) ==> normalize_tld_list(ts.take(i)) == normalize_tld_list(
            ts.take(i - 1),
        ),
{
    let pred = |t: Seq<char>| keep_tld(t);
    let f = |t: Seq<char>| norm_tld(t);
    let a = ts.take(i - 1);
    let b = seq![ts[i - 1]];
    assert(ts.take(i) =~= a + b);
    Seq::filter_distributes_over_add(a, b, pred);
    
    reveal_with_fuel(Seq::filter, 3);
    assert(b.drop_last() =~= Seq::<Seq<char>>::empty());
    assert(Seq::<Seq<char>>::empty().filter(pred) =~= Seq::<Seq<char>>::empty());
    if keep_tld(ts[i - 1]) {
        assert(b.filter(pred) =~= seq![ts[i - 1]]);
        assert((a.filter(pred) + seq![ts[i - 1]]).map_values(f) =~= a.filter(pred).map_values(
            f,
        ).push(f(ts[i - 1])));
    } else {
        assert(b.filter(pred) =~= Seq::<Seq<char>>::empty());
        assert((a.filter(pred) + b.filter(pred)) =~= a.filter(pred));
    }
}


impl Generator {
    /// Emits the next candidate of the pass, or reports the pass complete.
    ///
    /// The pending stream of the walk shrinks by exactly the returned
    /// candidate; nothing is reordered, dropped or invented.
    pub fn next(&mut self) -> (r: Option<String>)
        requires
            old(self).wf(),
        ensures
            final(self).wf(),
            final(self).gspec() == old(self).gspec(),
            match r {
                Option::Some(d) => old(self).pending() == seq![d@] + final(self).pending(),
                Option::None => old(self).pending().len() == 0 && final(self).pending().len()
                    == 0,
            },
    {
        let ghost g0 = self.gspec();
        let ghost p0 = self.pending();
        loop
            invariant
                self.wf(),
                self.gspec() == g0,
                self.pending() == p0,
                g0 == old(self).gspec(),
                p0 == old(self).pending(),
            decreases
                    (if self.finished {
                        0int
                    } else {
                        1int
                    }),
                    self.max_length + 1 - self.cur_len,
                    base_pow(self.alphabet@.len() as nat, self.cur_len as nat) - odo_val(
                        self.idx@,
                        self.alphabet@.len() as nat,
                    ),
                    self.tlds@.len() - self.ti,
        {
            if self.finished {
                return None;
            }
            let k = self.alphabet.len();
            proof {
                lemma_odo_val_bound(self.idx@, k as nat);
            }
            if self.ti < self.tlds.len() {
                let label = build_label(&self.alphabet, &self.idx);
                let ok = check_label(&label, &self.policy);
                proof {
                    assert(crate::text::views_of(self.tlds@)[self.ti as int]
                        == self.tlds@[self.ti as int]@);
                }
                if ok {
                    let mut dom = label;
                    let tld_chars = chars_of(self.tlds[self.ti].as_str());
                    crate::text::append_chars(&mut dom, &tld_chars);
                    let dl = lower_chars(&dom);
                    proof {
                        assert(dom@ == label_of(g0.alpha, self.idx@) + g0.tlds[self.ti as int]);
                    }
                    let emit_now = if self.started {
                        true
                    } else {
                        lex_lt_chars(&self.resume, &dl)
                    };
                    if emit_now {
                        let out = string_of(&dom);
                        proof {
                            assert(p0 == seq![dom@] + emit_seq(
                                g0,
                                self.cur_len as nat,
                                self.idx@,
                                self.ti as nat + 1,
                                true,
                            ));
                        }
                        self.ti = self.ti + 1;
                        self.started = true;
                        return Some(out);
                    } else if eq_chars(&dl, &self.resume) {
                        self.ti = self.ti + 1;
                        self.started = true;
                    } else {
                        self.ti = self.ti + 1;
                    }
                } else {
                    self.ti = self.tlds.len();
                }
            } else {
                let ghost before = self.idx@;
                let overflow = odo_step(&mut self.idx, k);
                if !overflow {
                    proof {
                        lemma_odo_succ(before, k as nat);
                    }
                    self.ti = 0;
                } else {
                    if self.cur_len < self.max_length {
                        self.cur_len = self.cur_len + 1;
                        self.idx.push(0);
                        self.ti = 0;
                        proof {
                            assert(self.idx@ =~= zero_digits(self.cur_len as nat));
                        }
                    } else {
                        proof {
                            let nlen = (self.cur_len + 1) as nat;
                            assert(pos_wf(g0, nlen, zero_digits(nlen), 0));
                            assert(emit_seq(g0, nlen, zero_digits(nlen), 0, self.started)
                                =~= Seq::<Seq<char>>::empty());
                        }
                        self.finished = true;
                    }
                }
            }
        }
    }
}


/// Runs one whole pass and collects what it emits, honouring the candidate
/// cap: a positive `max_candidates` stops the pass after that many emissions.
pub fn collect_candidates(gc: &GeneratorConfig, resume_from: &str, max_candidates: i64) -> (r:
    Vec<String>)
    requires
        gc.min_length >= 1,
        gc.max_length >= gc.min_length,
    ensures
        ({
            let full = generated(
                gen_spec_of(*gc, resume_from@),
                gc.min_length as nat,
                resume_from@.len() == 0,
            );
            crate::text::views_of(r@) == if max_candidates > 0 && full.len() > max_candidates {
                full.take(max_candidates as int)
            } else {
                full
            }
        }),
{
    let mut g = Generator::new(gc, resume_from);
    let ghost full = g.pending();
    let mut out: Vec<String> = Vec::new();
    loop
        invariant
            g.wf(),
            full == generated(
                gen_spec_of(*gc, resume_from@),
                gc.min_length as nat,
                resume_from@.len() == 0,
            ),
            crate::text::views_of(out@) + g.pending() =~= full,
            max_candidates > 0 ==> out@.len() <= max_candidates,
        decreases g.pending().len(),
    {
        if max_candidates > 0 && (out.len() as u64) >= (max_candidates as u64) {
            proof {
                assert(out@.len() == max_candidates);
                assert(full.len() == max_candidates + g.pending().len());
                assert(crate::text::views_of(out@) =~= full.take(max_candidates as int));
                if full.len() <= max_candidates {
                    assert(full.take(max_candidates as int) =~= full);
                }
            }
            return out;
        }
        let ghost before = g.pending();
        let nxt = g.next();
        match nxt {
            Option::Some(d) => {
                proof {
                    assert(crate::text::views_of(out@.push(d)) =~= crate::text::views_of(out@)
                        + seq![d@]);
                    assert((crate::text::views_of(out@) + seq![d@]) + g.pending()
                        =~= crate::text::views_of(out@) + before);
                }
                out.push(d);
            },
            Option::None => {
                proof {
                    assert(crate::text::views_of(out@) =~= full);
                    if max_candidates > 0 && full.len() > max_candidates {
                        assert(false);
                    }
                }
                return out;
            },
        }
    }
}

/// Determinism of generation: what a pass emits is a function of the settings
/// and the cursor alone, so two walks of one configuration agree exactly.
pub proof fn lemma_generation_deterministic(
    g: GenSpec,
    min_len: nat,
    started: bool,
    a: Seq<Seq<char>>,
    b: Seq<Seq<char>>,
)
    requires
        a == generated(g, min_len, started),
        b == generated(g, min_len, started),
    ensures
        a == b,
{
}

/// A candidate shaped as the walk emits it, split at a TLD of index `t`: the
/// part before the TLD is a valid label drawn from the alphabet.
pub open spec fn emittable_with(g: GenSpec, d: Seq<char>, t: int) -> bool {
    &&& 0 <= t < g.tlds.len()
    &&& g.tlds[t].len() <= d.len()
    &&& d.skip(d.len() - g.tlds[t].len()) == g.tlds[t]
    &&& valid_label(d.take(d.len() - g.tlds[t].len()), g.policy)
    &&& forall|i: int|
        0 <= i < d.len() - g.tlds[t].len() ==> g.alpha.contains(#[trigger] d[i])
}

/// A candidate the walk may emit: a valid label over the alphabet joined with
/// one of the configured TLDs.
pub open spec fn emittable(g: GenSpec, d: Seq<char>) -> bool {
    exists|t: int| emittable_with(g, d, t)
}

/// Alphabet closure: every candidate the walk emits, from any position, is a
/// valid label over the alphabet followed by a configured TLD.
pub proof fn lemma_emit_closure(g: GenSpec, len: nat, digits: Seq<usize>, ti: nat, started: bool)
    requires
        pos_wf(g, len, digits, ti),
    ensures
        forall|j: int|
            0 <= j < emit_seq(g, len, digits, ti, started).len() ==> emittable(
                g,
                #[trigger] emit_seq(g, len, digits, ti, started)[j],
            ),
    decreases
            g.max_len + 1 - len,
            base_pow(g.alpha.len(), len) - odo_val(digits, g.alpha.len()),
            g.tlds.len() - ti,
{
    let k = g.alpha.len();
    let s = emit_seq(g, len, digits, ti, started);
    if len > g.max_len {
    } else if ti < g.tlds.len() {
        let label = label_of(g.alpha, digits);
        if valid_label(label, g.policy) {
            let d = label + g.tlds[ti as int];
            let dl = lower(d);
            if started || lex_lt(g.resume, dl) {
                lemma_emit_closure(g, len, digits, ti + 1, true);
                let s2 = emit_seq(g, len, digits, ti + 1, true);
                assert(s == seq![d] + s2);
                assert(emittable_with(g, d, ti as int)) by {
                    assert(d.skip(d.len() - g.tlds[ti as int].len()) =~= g.tlds[ti as int]);
                    assert(d.take(d.len() - g.tlds[ti as int].len()) =~= label);
                    assert forall|i: int|
                        0 <= i < d.len() - g.tlds[ti as int].len() implies g.alpha.contains(
                        #[trigger] d[i],
                    ) by {
                        assert(d[i] == label[i]);
                        assert(label[i] == g.alpha[digits[i] as int]);
                        assert(digits[i] < k);
                    }
                }
                assert forall|j: int| 0 <= j < s.len() implies emittable(g, #[trigger] s[j]) by {
                    if j == 0 {
                        assert(s[0] == d);
                    } else {
                        assert(s[j] == s2[j - 1]);
                    }
                }
            } else if dl == g.resume {
                lemma_emit_closure(g, len, digits, ti + 1, true);
                let s2 = emit_seq(g, len, digits, ti + 1, true);
                assert forall|j: int| 0 <= j < s.len() implies emittable(g, #[trigger] s[j]) by {
                    assert(s[j] == s2[j]);
                }
            } else {
                lemma_emit_closure(g, len, digits, ti + 1, started);
                let s2 = emit_seq(g, len, digits, ti + 1, started);
                assert forall|j: int| 0 <= j < s.len() implies emittable(g, #[trigger] s[j]) by {
                    assert(s[j] == s2[j]);
                }
            }
        } else {
            lemma_emit_closure(g, len, digits, g.tlds.len(), started);
            let s2 = emit_seq(g, len, digits, g.tlds.len(), started);
            assert forall|j: int| 0 <= j < s.len() implies emittable(g, #[trigger] s[j]) by {
                assert(s[j] == s2[j]);
            }
        }
    } else if !is_max_digits(digits, k) {
        lemma_odo_succ(digits, k);
        lemma_odo_val_bound(digits, k);
        lemma_emit_closure(g, len, odo_succ(digits, k), 0, started);
        let s2 = emit_seq(g, len, odo_succ(digits, k), 0, started);
        assert forall|j: int| 0 <= j < s.len() implies emittable(g, #[trigger] s[j]) by {
            assert(s[j] == s2[j]);
        }
    } else {
        lemma_emit_closure(g, (len + 1) as nat, zero_digits((len + 1) as nat), 0, started);
        let s2 = emit_seq(g, (len + 1) as nat, zero_digits((len + 1) as nat), 0, started);
        assert forall|j: int| 0 <= j < s.len() implies emittable(g, #[trigger] s[j]) by {
            assert(s[j] == s2[j]);
        }
    }
}


/// Keeping everything keeps the sequence: a filter whose predicate holds of
/// every element is the identity.
proof fn lemma_filter_all(s: Seq<Seq<char>>, pred: spec_fn(Seq<char>) -> bool)
    requires
        forall|i: int| 0 <= i < s.len() ==> pred(#[trigger] s[i]),
    ensures
        s.filter(pred) == s,
    decreases s.len(),
{
    reveal(Seq::filter);
    if s.len() > 0 {
        lemma_filter_all(s.drop_last(), pred);
        assert(pred(s.last()));
        assert(s.filter(pred) =~= s);
    } else {
        assert(s.filter(pred) =~= s);
    }
}

/// Splits a filter over a one-element head.
proof fn lemma_filter_head(d: Seq<char>, rest: Seq<Seq<char>>, pred: spec_fn(Seq<char>) -> bool)
    ensures
        pred(d) ==> (seq![d] + rest).filter(pred) == seq![d] + rest.filter(pred),
        !pred(d) ==> (seq![d] + rest).filter(pred) == rest.filter(pred),
{
    Seq::filter_distributes_over_add(seq![d], rest, pred);
    reveal_with_fuel(Seq::filter, 3);
    assert(seq![d].drop_last() =~= Seq::<Seq<char>>::empty());
    assert(Seq::<Seq<char>>::empty().filter(pred) =~= Seq::<Seq<char>>::empty());
    if pred(d) {
        assert(seq![d].filter(pred) =~= seq![d]);
    } else {
        assert(seq![d].filter(pred) =~= Seq::<Seq<char>>::empty());
        assert((Seq::<Seq<char>>::empty() + rest.filter(pred)) =~= rest.filter(pred));
    }
}

/// The stream is strictly ascending when lowercased.
pub open spec fn stream_sorted(s: Seq<Seq<char>>) -> bool {
    forall|i: int, j: int|
        0 <= i < j < s.len() ==> lex_lt(lower(#[trigger] s[i]), lower(#[trigger] s[j]))
}

/// The candidates beyond the cursor.
pub open spec fn beyond_cursor(resume: Seq<char>) -> spec_fn(Seq<char>) -> bool {
    |d: Seq<char>| lex_lt(resume, lower(d))
}

/// Resume idempotence, position by position: when the rest of the fresh walk
/// is strictly ascending in lowercase order, the walk that still owes the
/// cursor emits exactly the fresh walk filtered to candidates beyond it.
pub proof fn lemma_resume_filters(g: GenSpec, len: nat, digits: Seq<usize>, ti: nat)
    requires
        pos_wf(g, len, digits, ti),
        stream_sorted(emit_seq(g, len, digits, ti, true)),
    ensures
        emit_seq(g, len, digits, ti, false) == emit_seq(g, len, digits, ti, true).filter(
            beyond_cursor(g.resume),
        ),
    decreases
            g.max_len + 1 - len,
            base_pow(g.alpha.len(), len) - odo_val(digits, g.alpha.len()),
            g.tlds.len() - ti,
{
    let k = g.alpha.len();
    let pred = beyond_cursor(g.resume);
    let st = emit_seq(g, len, digits, ti, true);
    let sf = emit_seq(g, len, digits, ti, false);
    if len > g.max_len {
        reveal(Seq::filter);
        assert(st.filter(pred) =~= st);
    } else if ti < g.tlds.len() {
        let label = label_of(g.alpha, digits);
        if valid_label(label, g.policy) {
            let d = label + g.tlds[ti as int];
            let dl = lower(d);
            let rest = emit_seq(g, len, digits, ti + 1, true);
            assert(st == seq![d] + rest);
            lemma_filter_head(d, rest, pred);
            assert forall|j: int| 0 <= j < rest.len() implies lex_lt(dl, lower(
                #[trigger] rest[j],
            )) by {
                assert(st[0] == d);
                assert(st[j + 1] == rest[j]);
            }
            if lex_lt(g.resume, dl) {
                assert(sf == seq![d] + rest);
                assert forall|j: int| 0 <= j < rest.len() implies pred(#[trigger] rest[j]) by {
                    crate::text::lemma_lex_lt_trans(g.resume, dl, lower(rest[j]));
                }
                lemma_filter_all(rest, pred);
            } else if dl == g.resume {
                assert(sf == rest);
                assert forall|j: int| 0 <= j < rest.len() implies pred(#[trigger] rest[j]) by {
                    assert(lex_lt(dl, lower(rest[j])));
                }
                lemma_filter_all(rest, pred);
            } else {
                assert(sf == emit_seq(g, len, digits, ti + 1, false));
                assert(!pred(d));
                assert forall|i: int, j: int| 0 <= i < j < rest.len() implies lex_lt(
                    lower(#[trigger] rest[i]),
                    lower(#[trigger] rest[j]),
                ) by {
                    assert(st[i + 1] == rest[i]);
                    assert(st[j + 1] == rest[j]);
                }
                lemma_resume_filters(g, len, digits, ti + 1);
            }
        } else {
            assert(st == emit_seq(g, len, digits, g.tlds.len(), true));
            assert(sf == emit_seq(g, len, digits, g.tlds.len(), false));
            lemma_resume_filters(g, len, digits, g.tlds.len());
        }
    } else if !is_max_digits(digits, k) {
        lemma_odo_succ(digits, k);
        lemma_odo_val_bound(digits, k);
        assert(st == emit_seq(g, len, odo_succ(digits, k), 0, true));
        assert(sf == emit_seq(g, len, odo_succ(digits, k), 0, false));
        lemma_resume_filters(g, len, odo_succ(digits, k), 0);
    } else {
        let nlen = (len + 1) as nat;
        assert(st == emit_seq(g, nlen, zero_digits(nlen), 0, true));
        assert(sf == emit_seq(g, nlen, zero_digits(nlen), 0, false));
        lemma_resume_filters(g, nlen, zero_digits(nlen), 0);
    }
}

/// Resume idempotence for a whole pass: when the fresh walk is strictly
/// ascending in lowercase order, a resumed pass emits exactly the fresh
/// walk's candidates whose lowercase form exceeds the cursor.
pub proof fn lemma_resume_idempotent(g: GenSpec, min_len: nat)
    requires
        pos_wf(g, min_len, zero_digits(min_len), 0),
        stream_sorted(generated(g, min_len, true)),
    ensures
        generated(g, min_len, false) == generated(g, min_len, true).filter(
            beyond_cursor(g.resume),
        ),
{
    lemma_resume_filters(g, min_len, zero_digits(min_len), 0);
}

} // verus!

