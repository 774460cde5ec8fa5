//! Configuration of a search run, and its validation.
//!
//! The configuration file itself is read and decoded outside the library;
//! the values arrive here as plain fields. `validate_config` states exactly
//! which configurations are accepted and which error is reported first.
use vstd::prelude::*;

verus! {

#[derive(Clone)]
pub struct GeneratorConfig {
    pub tlds: Vec<String>,
    pub tlds_file: String,
    pub min_length: i32,
    pub max_length: i32,
    pub alphabet: String,
    pub allow_hyphen: bool,
    pub forbid_leading_hyphen: bool,
    pub forbid_trailing_hyphen: bool,
    pub forbid_double_hyphen: bool,
}

#[derive(Clone)]
pub struct LimitsConfig {
    pub concurrency: i32,
    pub rate_per_second: i32,
    pub max_candidates: i32,
}

#[derive(Clone)]
pub struct HTTPCheckConfig {
    /// Per-request timeout, in milliseconds.
    pub timeout_ms: u64,
    pub retry: u32,
    pub method: String,
    pub accept_status_min: i32,
    pub accept_status_max: i32,
    pub try_https_first: bool,
    /// Cap on how much of a response body is read, in bytes.
    pub body_limit_bytes: u64,
}

#[derive(Clone)]
pub struct RunConfig {
    pub loop_: bool,
}

#[derive(Clone)]
pub struct StorageConfig {
    pub dir: String,
    pub resume: bool,
    pub state_file: String,
}

#[derive(Clone)]
pub struct Config {
    pub version: i32,
    pub generator: GeneratorConfig,
    pub limits: LimitsConfig,
    pub http_check: HTTPCheckConfig,
    pub run: RunConfig,
    pub storage: StorageConfig,
}

/// The reasons a configuration is rejected at startup.
#[derive(Clone, Copy, PartialEq, Eq, Structural, Debug)]
pub enum ConfigError {
    /// Neither an inline TLD list nor a TLD file was given.
    EmptyTlds,
    /// `min_length` is below one, or `max_length` is below `min_length`.
    InvalidLengths,
    /// `concurrency` is not positive.
    InvalidConcurrency,
    /// `rate_per_second` is not positive.
    InvalidRate,
    /// `accept_status_min` is not positive, or the range is empty.
    InvalidStatusRange,
    /// `storage.dir` is blank.
    EmptyStorageDir,
    /// A duration string could not be parsed.
    InvalidDuration,
}

impl ConfigError {
    /// A short description of the error.
    pub fn message(&self) -> &'static str {
        match self {
            ConfigError::EmptyTlds => "generator.tlds must not be empty (or provide generator.tlds_file)",
            ConfigError::InvalidLengths => "invalid generator lengths",
            ConfigError::InvalidConcurrency => "limits.concurrency must be > 0",
            ConfigError::InvalidRate => "limits.rate_per_second must be > 0",
            ConfigError::InvalidStatusRange => "invalid http_check accept status range",
            ConfigError::EmptyStorageDir => "storage.dir must not be empty",
            ConfigError::InvalidDuration => "invalid duration",
        }
    }
}

/// Whether a string is blank: empty once ASCII whitespace is trimmed.
pub open spec fn blank(s: Seq<char>) -> bool {
    crate::text::trim_spec(s).len() == 0
}

/// Executable blankness test.
pub fn is_blank(s: &str) -> (r: bool)
    ensures
        r == blank(s@),
{
    let v = crate::text::chars_of(s);
    let t = crate::text::trim_chars(&v);
    t.len() == 0
}

/// The validity conditions, in the order they are checked.
pub open spec fn tlds_present(c: Config) -> bool {
    c.generator.tlds@.len() > 0 || !blank(c.generator.tlds_file@)
}

pub open spec fn lengths_ok(c: Config) -> bool {
    c.generator.min_length >= 1 && c.generator.max_length >= c.generator.min_length
}

pub open spec fn status_range_ok(c: Config) -> bool {
    c.http_check.accept_status_min > 0 && c.http_check.accept_status_max
        >= c.http_check.accept_status_min
}

pub open spec fn config_valid(c: Config) -> bool {
    &&& tlds_present(c)
    &&& lengths_ok(c)
    &&& c.limits.concurrency > 0
    &&& c.limits.rate_per_second > 0
    &&& status_range_ok(c)
    &&& !blank(c.storage.dir@)
}

/// Checks a configuration and reports the first violated rule.
pub fn validate_config(cfg: &Config) -> (r: Result<(), ConfigError>)
    ensures
        r is Ok <==> config_valid(*cfg),
        !tlds_present(*cfg) ==> r == Result::<(), ConfigError>::Err(ConfigError::EmptyTlds),
        tlds_present(*cfg) && !lengths_ok(*cfg) ==> r == Result::<(), ConfigError>::Err(
            ConfigError::InvalidLengths,
        ),
        tlds_present(*cfg) && lengths_ok(*cfg) && cfg.limits.concurrency <= 0 ==> r == Result::<
            (),
            ConfigError,
        >::Err(ConfigError::InvalidConcurrency),
        tlds_present(*cfg) && lengths_ok(*cfg) && cfg.limits.concurrency > 0
            && cfg.limits.rate_per_second <= 0 ==> r == Result::<(), ConfigError>::Err(
            ConfigError::InvalidRate,
        ),
        tlds_present(*cfg) && lengths_ok(*cfg) && cfg.limits.concurrency > 0
            && cfg.limits.rate_per_second > 0 && !status_range_ok(*cfg) ==> r == Result::<
            (),
            ConfigError,
        >::Err(ConfigError::InvalidStatusRange),
        tlds_present(*cfg) && lengths_ok(*cfg) && cfg.limits.concurrency > 0
            && cfg.limits.rate_per_second > 0 && status_range_ok(*cfg) && blank(cfg.storage.dir@)
            ==> r == Result::<(), ConfigError>::Err(ConfigError::EmptyStorageDir),
{
    if cfg.generator.tlds.len() == 0 && is_blank(cfg.tlds_file_str()) {
        return Err(ConfigError::EmptyTlds);
    }
    if cfg.generator.min_length < 1 || cfg.generator.max_length < cfg.generator.min_length {
        return Err(ConfigError::InvalidLengths);
    }
    if cfg.limits.concurrency <= 0 {
        return Err(ConfigError::InvalidConcurrency);
    }
    if cfg.limits.rate_per_second <= 0 {
        return Err(ConfigError::InvalidRate);
    }
    if cfg.http_check.accept_status_min <= 0 || cfg.http_check.accept_status_max
        < cfg.http_check.accept_status_min {
        return Err(ConfigError::InvalidStatusRange);
    }
    if is_blank(cfg.storage.dir.as_str()) {
        return Err(ConfigError::EmptyStorageDir);
    }
    Ok(())
}

impl Config {
    fn tlds_file_str(&self) -> (r: &str)
        ensures
            r@ == self.generator.tlds_file@,
    {
        self.generator.tlds_file.as_str()
    }
}


/// Index of the first occurrence of `c` in `s`, or the length when absent.
pub open spec fn first_occ(s: Seq<char>, c: char) -> int
    decreases s.len(),
{
    if s.len() == 0 {
        0
    } else if s[0] == c {
        0
    } else {
        1 + first_occ(s.skip(1), c)
    }
}

pub proof fn lemma_first_occ(s: Seq<char>, c: char)
    ensures
        0 <= first_occ(s, c) <= s.len(),
        forall|j: int| 0 <= j < first_occ(s, c) ==> s[j] != c,
        first_occ(s, c) < s.len() ==> s[first_occ(s, c)] == c,
    decreases s.len(),
{
    if s.len() == 0 {
    } else if s[0] == c {
    } else {
        lemma_first_occ(s.skip(1), c);
        assert forall|j: int| 0 <= j < first_occ(s, c) implies s[j] != c by {
            if j > 0 {
                assert(s.skip(1)[j - 1] != c);
            }
        }
        if first_occ(s, c) < s.len() {
            assert(s.skip(1)[first_occ(s, c) - 1] == c);
        }
    }
}

/// Where the first occurrence is known, `first_occ` finds exactly it.
pub proof fn lemma_first_occ_is(s: Seq<char>, c: char, k: int)
    requires
        0 <= k <= s.len(),
        forall|j: int| 0 <= j < k ==> s[j] != c,
        k < s.len() ==> s[k] == c,
    ensures
        first_occ(s, c) == k,
    decreases k,
{
    if s.len() == 0 {
    } else if k == 0 {
        if s.len() > 0 && s[0] != c {
            lemma_first_occ(s, c);
        }
    } else {
        assert forall|j: int| 0 <= j < k - 1 implies s.skip(1)[j] != c by {
            assert(s[j + 1] != c);
        }
        if k - 1 < s.skip(1).len() {
            assert(s.skip(1)[k - 1] == s[k]);
        }
        lemma_first_occ_is(s.skip(1), c, k - 1);
    }
}

/// The lines of a text, split at newlines; a trailing newline does not add
/// an empty final line.
pub open spec fn lines_of(s: Seq<char>) -> Seq<Seq<char>>
    decreases s.len(),
{
    if s.len() == 0 {
        Seq::empty()
    } else {
        let i = first_occ(s, '\n');
        proof {
            lemma_first_occ(s, '\n');
        }
        if i >= s.len() {
            seq![s]
        } else {
            seq![s.take(i)] + lines_of(s.skip(i + 1))
        }
    }
}

/// Splits a text into its lines.
pub fn split_lines(text: &str) -> (r: Vec<String>)
    ensures
        crate::text::views_of(r@) == lines_of(text@),
{
    let v = crate::text::chars_of(text);
    let mut out: Vec<String> = Vec::new();
    let mut start: usize = 0;
    let mut i: usize = 0;
    proof {
        assert(text@.skip(0) =~= text@);
        assert(crate::text::views_of(out@) + lines_of(text@) =~= lines_of(text@));
    }
    while i < v.len()
        invariant
            start <= i <= v@.len(),
            v@ == text@,
            lines_of(text@) == crate::text::views_of(out@) + lines_of(text@.skip(start as int)),
            forall|j: int| start <= j < i ==> v@[j] != '\n',
        decreases v@.len() - i,
    {
        if v[i] == '\n' {
            let mut line: Vec<char> = Vec::new();
            let mut k: usize = start;
            while k < i
                invariant
                    start <= k <= i <= v@.len(),
                    v@ == text@,
                    line@ == v@.subrange(start as int, k as int),
                decreases i - k,
            {
                line.push(v[k]);
                k = k + 1;
                proof {
                    assert(line@ =~= v@.subrange(start as int, k as int));
                }
            }
            let ls = crate::text::string_of(&line);
            let ghost lsg = ls;
            let ghost rest = text@.skip(start as int);
            let ghost oldout = out@;
            out.push(ls);
            proof {
                assert forall|j: int| 0 <= j < i - start implies rest[j] != '\n' by {
                    assert(text@[start + j] != '\n');
                }
                assert(rest[i - start] == '\n');
                lemma_first_occ_is(rest, '\n', i - start);
                assert(rest.take(i - start) =~= v@.subrange(start as int, i as int));
                assert(rest.skip(i - start + 1) =~= text@.skip(i as int + 1));
                assert(lines_of(rest) == seq![line@] + lines_of(text@.skip(i as int + 1)));
                crate::text::lemma_views_push(oldout, lsg);
                assert(crate::text::views_of(oldout) + lines_of(rest)
                    =~= crate::text::views_of(out@) + lines_of(text@.skip(i as int + 1)));
            }
            start = i + 1;
        }
        i = i + 1;
    }
    if start < v.len() {
        let mut line: Vec<char> = Vec::new();
        let mut k: usize = start;
        while k < v.len()
            invariant
                start <= k <= v@.len(),
                v@ == text@,
                line@ == v@.subrange(start as int, k as int),
            decreases v@.len() - k,
        {
            line.push(v[k]);
            k = k + 1;
            proof {
                assert(line@ =~= v@.subrange(start as int, k as int));
            }
        }
        let ls = crate::text::string_of(&line);
        let ghost lsg = ls;
        let ghost rest = text@.skip(start as int);
        let ghost oldout = out@;
        out.push(ls);
        proof {
            assert forall|j: int| 0 <= j < rest.len() implies rest[j] != '\n' by {
                assert(text@[start + j] != '\n');
            }
            lemma_first_occ_is(rest, '\n', rest.len() as int);
            assert(rest =~= v@.subrange(start as int, v@.len() as int));
            assert(line@ == rest);
            assert(lines_of(rest) == seq![rest]);
            crate::text::lemma_views_push(oldout, lsg);
        }
    } else {
        proof {
            assert(text@.skip(start as int) =~= Seq::<char>::empty());
        }
    }
    proof {
        assert(crate::text::views_of(out@) =~= lines_of(text@));
    }
    out
}


/// The TLD one line of a TLD-list file contributes: trimmed, comments and
/// blanks dropped, an optional leading dot removed, lowercased, and given
/// back with its dot.
pub open spec fn tld_of_line(line: Seq<char>) -> Option<Seq<char>> {
    let t = crate::text::trim_spec(line);
    if t.len() == 0 || t[0] == '#' {
        Option::None
    } else {
        let u = if t[0] == '.' {
            t.skip(1)
        } else {
            t
        };
        let w = crate::text::lower(u);
        if w.len() == 0 {
            Option::None
        } else {
            Option::Some(seq!['.'] + w)
        }
    }
}

/// Normalizes one line of a TLD list.
pub fn norm_tld_line(line: &str) -> (r: Option<String>)
    ensures
        match r {
            Option::Some(t) => tld_of_line(line@) == Option::Some(t@),
            Option::None => tld_of_line(line@) is None,
        },
{
    let lv = crate::text::chars_of(line);
    let t = crate::text::trim_chars(&lv);
    if t.len() == 0 || t[0] == '#' {
        return None;
    }
    let mut u: Vec<char> = Vec::new();
    let from: usize = if t[0] == '.' {
        1
    } else {
        0
    };
    let mut k: usize = from;
    while k < t.len()
        invariant
            from <= k <= t@.len(),
            u@ == t@.subrange(from as int, k as int),
        decreases t@.len() - k,
    {
        u.push(t[k]);
        k = k + 1;
        proof {
            assert(u@ =~= t@.subrange(from as int, k as int));
        }
    }
    proof {
        if from == 1 {
            assert(u@ =~= t@.skip(1));
        } else {
            assert(u@ =~= t@);
        }
    }
    let w = crate::text::lower_chars(&u);
    if w.len() == 0 {
        return None;
    }
    let mut out: Vec<char> = Vec::new();
    out.push('.');
    crate::text::append_chars(&mut out, &w);
    proof {
        assert(out@ =~= seq!['.'] + w@);
    }
    Some(crate::text::string_of(&out))
}

/// Whether some line of the list contributes `d`.
pub open spec fn tld_listed(lines: Seq<Seq<char>>, d: Seq<char>) -> bool {
    exists|i: int| 0 <= i < lines.len() && tld_of_line(#[trigger] lines[i]) == Option::Some(d)
}

/// Parses the body of a TLD-list file: one TLD per line, `#` comments and
/// blank lines skipped, the result lowercased, dot-prefixed, deduplicated
/// and sorted.
pub fn parse_tld_list(text: &str) -> (r: Vec<String>)
    ensures
        crate::text::strictly_sorted(crate::text::views_of(r@)),
        forall|d: Seq<char>|
            crate::text::views_of(r@).contains(d) <==> tld_listed(lines_of(text@), d),
{
    let lines = split_lines(text);
    let ghost lv = lines_of(text@);
    let mut out: Vec<String> = Vec::new();
    let mut i: usize = 0;
    while i < lines.len()
        invariant
            i <= lines@.len(),
            crate::text::views_of(lines@) == lv,
            crate::text::strictly_sorted(crate::text::views_of(out@)),
            forall|d: Seq<char>|
                crate::text::views_of(out@).contains(d) <==> tld_listed(lv.take(i as int), d),
        decreases lines@.len() - i,
    {
        let ghost oldviews = crate::text::views_of(out@);
        proof {
            assert(crate::text::views_of(lines@)[i as int] == lines@[i as int]@);
        }
        let nt = norm_tld_line(lines[i].as_str());
        match nt {
            Option::Some(t) => {
                let ghost tv = t@;
                crate::text::insert_sorted_unique(&mut out, t);
                proof {
                    assert forall|d: Seq<char>|
                        crate::text::views_of(out@).contains(d) <==> tld_listed(
                            lv.take(i as int + 1),
                            d,
                        ) by {
                        if crate::text::views_of(out@).contains(d) {
                            if oldviews.contains(d) {
                                let w = choose|w: int|
                                    0 <= w < i && tld_of_line(#[trigger] lv.take(i as int)[w])
                                        == Option::Some(d);
                                assert(lv.take(i as int + 1)[w] == lv.take(i as int)[w]);
                            } else {
                                assert(d == tv);
                                assert(tld_of_line(lv.take(i as int + 1)[i as int])
                                    == Option::Some(d));
                            }
                        }
                        if tld_listed(lv.take(i as int + 1), d) {
                            let w = choose|w: int|
                                0 <= w < i + 1 && tld_of_line(
                                    #[trigger] lv.take(i as int + 1)[w],
                                ) == Option::Some(d);
                            if w < i {
                                assert(lv.take(i as int)[w] == lv.take(i as int + 1)[w]);
                                assert(tld_listed(lv.take(i as int), d));
                            } else {
                                assert(lv.take(i as int + 1)[w] == lv[i as int]);
                                assert(d == tv);
                            }
                        }
                    }
                }
            },
            Option::None => {
                proof {
                    assert forall|d: Seq<char>|
                        crate::text::views_of(out@).contains(d) <==> tld_listed(
                            lv.take(i as int + 1),
                            d,
                        ) by {
                        if crate::text::views_of(out@).contains(d) {
                            let w = choose|w: int|
                                0 <= w < i && tld_of_line(#[trigger] lv.take(i as int)[w])
                                    == Option::Some(d);
                            assert(lv.take(i as int + 1)[w] == lv.take(i as int)[w]);
                        }
                        if tld_listed(lv.take(i as int + 1), d) {
                            let w = choose|w: int|
                                0 <= w < i + 1 && tld_of_line(
                                    #[trigger] lv.take(i as int + 1)[w],
                                ) == Option::Some(d);
                            if w < i {
                                assert(lv.take(i as int)[w] == lv.take(i as int + 1)[w]);
                                assert(tld_listed(lv.take(i as int), d));
                            } else {
                                assert(lv.take(i as int + 1)[w] == lv[i as int]);
                            }
                        }
                    }
                }
            },
        }
        i = i + 1;
    }
    proof {
        assert(lv.take(lv.len() as int) =~= lv);
    }
    out
}

/// The name one configured TLD shows in the TLD listing: trimmed,
/// lowercased, without its leading dot; blank entries vanish.
pub open spec fn tld_name_of(t: Seq<char>) -> Option<Seq<char>> {
    let w = crate::text::lower(crate::text::trim_spec(t));
    let u = if w.len() > 0 && w[0] == '.' {
        w.skip(1)
    } else {
        w
    };
    if u.len() == 0 {
        Option::None
    } else {
        Option::Some(u)
    }
}

/// Whether some configured TLD is listed as `d`.
pub open spec fn tld_named(ts: Seq<Seq<char>>, d: Seq<char>) -> bool {
    exists|i: int| 0 <= i < ts.len() && tld_name_of(#[trigger] ts[i]) == Option::Some(d)
}

fn norm_tld_name(t: &str) -> (r: Option<String>)
    ensures
        match r {
            Option::Some(u) => tld_name_of(t@) == Option::Some(u@),
            Option::None => tld_name_of(t@) is None,
        },
{
    let tv = crate::text::chars_of(t);
    let tr = crate::text::trim_chars(&tv);
    let w = crate::text::lower_chars(&tr);
    let from: usize = if w.len() > 0 && w[0] == '.' {
        1
    } else {
        0
    };
    let mut u: Vec<char> = Vec::new();
    let mut k: usize = from;
    while k < w.len()
        invariant
            from <= k <= w@.len(),
            u@ == w@.subrange(from as int, k as int),
        decreases w@.len() - k,
    {
        u.push(w[k]);
        k = k + 1;
        proof {
            assert(u@ =~= w@.subrange(from as int, k as int));
        }
    }
    proof {
        if from == 1 {
            assert(u@ =~= w@.skip(1));
        } else {
            assert(u@ =~= w@);
        }
    }
    if u.len() == 0 {
        return None;
    }
    Some(crate::text::string_of(&u))
}

/// The TLD names the listing endpoint serves: each configured TLD trimmed,
/// lowercased and dot-stripped, deduplicated and sorted.
pub fn normalize_tld_names(tlds: &Vec<String>) -> (r: Vec<String>)
    ensures
        crate::text::strictly_sorted(crate::text::views_of(r@)),
        forall|d: Seq<char>|
            crate::text::views_of(r@).contains(d) <==> tld_named(
                crate::text::views_of(tlds@),
                d,
            ),
{
    let ghost lv = crate::text::views_of(tlds@);
    let mut out: Vec<String> = Vec::new();
    let mut i: usize = 0;
    while i < tlds.len()
        invariant
            i <= tlds@.len(),
            lv == crate::text::views_of(tlds@),
            crate::text::strictly_sorted(crate::text::views_of(out@)),
            forall|d: Seq<char>|
                crate::text::views_of(out@).contains(d) <==> tld_named(lv.take(i as int), d),
        decreases tlds@.len() - i,
    {
        let ghost oldviews = crate::text::views_of(out@);
        proof {
            assert(crate::text::views_of(tlds@)[i as int] == tlds@[i as int]@);
        }
        let nt = norm_tld_name(tlds[i].as_str());
        match nt {
            Option::Some(t) => {
                let ghost tv = t@;
                crate::text::insert_sorted_unique(&mut out, t);
                proof {
                    assert forall|d: Seq<char>|
                        crate::text::views_of(out@).contains(d) <==> tld_named(
                            lv.take(i as int + 1),
                            d,
                        ) by {
                        if crate::text::views_of(out@).contains(d) {
                            if oldviews.contains(d) {
                                let w = choose|w: int|
                                    0 <= w < i && tld_name_of(#[trigger] lv.take(i as int)[w])
                                        == Option::Some(d);
                                assert(lv.take(i as int + 1)[w] == lv.take(i as int)[w]);
                            } else {
                                assert(d == tv);
                                assert(tld_name_of(lv.take(i as int + 1)[i as int])
                                    == Option::Some(d));
                            }
                        }
                        if tld_named(lv.take(i as int + 1), d) {
                            let w = choose|w: int|
                                0 <= w < i + 1 && tld_name_of(
                                    #[trigger] lv.take(i as int + 1)[w],
                                ) == Option::Some(d);
                            if w < i {
                                assert(lv.take(i as int)[w] == lv.take(i as int + 1)[w]);
                                assert(tld_named(lv.take(i as int), d));
                            } else {
                                assert(lv.take(i as int + 1)[w] == lv[i as int]);
                                assert(d == tv);
                            }
                        }
                    }
                }
            },
            Option::None => {
                proof {
                    assert forall|d: Seq<char>|
                        crate::text::views_of(out@).contains(d) <==> tld_named(
                            lv.take(i as int + 1),
                            d,
                        ) by {
                        if crate::text::views_of(out@).contains(d) {
                            let w = choose|w: int|
                                0 <= w < i && tld_name_of(#[trigger] lv.take(i as int)[w])
                                    == Option::Some(d);
                            assert(lv.take(i as int + 1)[w] == lv.take(i as int)[w]);
                        }
                        if tld_named(lv.take(i as int + 1), d) {
                            let w = choose|w: int|
                                0 <= w < i + 1 && tld_name_of(
                                    #[trigger] lv.take(i as int + 1)[w],
                                ) == Option::Some(d);
                            if w < i {
                                assert(lv.take(i as int)[w] == lv.take(i as int + 1)[w]);
                                assert(tld_named(lv.take(i as int), d));
                            } else {
                                assert(lv.take(i as int + 1)[w] == lv[i as int]);
                            }
                        }
                    }
                }
            },
        }
        i = i + 1;
    }
    proof {
        assert(lv.take(lv.len() as int) =~= lv);
    }
    out
}


/// The unit a duration string carries: a `ms`, `s`, `m` or `h` suffix;
/// seconds when none is recognized.
pub enum DurUnit {
    Ms,
    S,
    M,
    H,
}

pub open spec fn unit_of(st: Seq<char>) -> DurUnit {
    if st.len() >= 2 && st[st.len() - 2] == 'm' && st[st.len() - 1] == 's' {
        DurUnit::Ms
    } else if st.len() >= 1 && st.last() == 's' {
        DurUnit::S
    } else if st.len() >= 1 && st.last() == 'm' {
        DurUnit::M
    } else if st.len() >= 1 && st.last() == 'h' {
        DurUnit::H
    } else {
        DurUnit::S
    }
}

/// Milliseconds per unit.
pub open spec fn unit_factor(u: DurUnit) -> nat {
    match u {
        DurUnit::Ms => 1,
        DurUnit::S => 1000,
        DurUnit::M => 60000,
        DurUnit::H => 3600000,
    }
}

/// The number part of a duration string: the text with its unit suffix
/// removed; a bare number keeps everything.
pub open spec fn num_part(st: Seq<char>) -> Seq<char> {
    match unit_of(st) {
        DurUnit::Ms => st.take(st.len() - 2),
        _ => {
            if st.len() >= 1 && (st.last() == 's' || st.last() == 'm' || st.last() == 'h') {
                st.take(st.len() - 1)
            } else {
                st
            }
        },
    }
}

pub open spec fn is_digit(c: char) -> bool {
    '0' <= c && c <= '9'
}

/// The value of a digit string, most significant first.
pub open spec fn digits_val(s: Seq<char>) -> nat
    decreases s.len(),
{
    if s.len() == 0 {
        0
    } else {
        (digits_val(s.drop_last()) * 10 + (s.last() as u32 - '0' as u32)) as nat
    }
}

/// `10^k`.
pub open spec fn pow10(k: nat) -> nat
    decreases k,
{
    if k == 0 {
        1
    } else {
        10 * pow10((k - 1) as nat)
    }
}

/// A well-formed decimal number: digits with at most one dot among them and
/// at least one digit.
pub open spec fn decimal_ok(np: Seq<char>) -> bool {
    let dp = first_occ(np, '.');
    &&& np.len() > 0
    &&& (forall|j: int| 0 <= j < dp ==> is_digit(#[trigger] np[j]))
    &&& (forall|j: int| dp < j < np.len() ==> is_digit(#[trigger] np[j]))
    &&& np.len() > (if dp < np.len() {
        1int
    } else {
        0int
    })
}

/// What a duration string denotes, in milliseconds: the number scaled by its
/// unit, with the fraction kept to millisecond precision through the first
/// nine fraction digits.
pub open spec fn duration_ms_spec(s: Seq<char>) -> Option<nat> {
    let st = crate::text::lower(crate::text::trim_spec(s));
    let u = unit_of(st);
    let np = crate::text::trim_spec(num_part(st));
    if !decimal_ok(np) {
        Option::None
    } else {
        let dp = first_occ(np, '.');
        let whole = np.take(dp);
        let frac = if dp < np.len() {
            np.skip(dp + 1)
        } else {
            Seq::empty()
        };
        let k = if frac.len() < 9 {
            frac.len()
        } else {
            9
        };
        Option::Some(
            (digits_val(whole) * unit_factor(u) + digits_val(frac.take(k as int)) * unit_factor(u)
                / pow10(k)) as nat,
        )
    }
}

/// Digit prefixes never denote more than the whole digit string.
pub proof fn lemma_digits_val_prefix(s: Seq<char>, i: int)
    requires
        0 <= i <= s.len(),
        forall|j: int| 0 <= j < s.len() ==> is_digit(#[trigger] s[j]),
    ensures
        digits_val(s.take(i)) <= digits_val(s),
    decreases s.len() - i,
{
    if i < s.len() {
        lemma_digits_val_prefix(s, i + 1);
        assert(s.take(i + 1).drop_last() =~= s.take(i));
        let pre = digits_val(s.take(i));
        let d = s.take(i + 1).last() as u32 - '0' as u32;
        assert(is_digit(s[i]));
        assert(0 <= d <= 9);
        assert(digits_val(s.take(i + 1)) == pre * 10 + d);
        assert(pre <= pre * 10) by (nonlinear_arith);
    } else {
        assert(s.take(i) =~= s);
    }
}

/// The concrete powers of ten the parser keeps.
proof fn lemma_pow10_values()
    ensures
        pow10(8) == 100000000,
        pow10(9) == 1000000000,
{
    assert(pow10(0) == 1);
    assert(pow10(1) == 10 * pow10(0));
    assert(pow10(2) == 10 * pow10(1));
    assert(pow10(3) == 10 * pow10(2));
    assert(pow10(4) == 10 * pow10(3));
    assert(pow10(5) == 10 * pow10(4));
    assert(pow10(6) == 10 * pow10(5));
    assert(pow10(7) == 10 * pow10(6));
    assert(pow10(8) == 10 * pow10(7));
    assert(pow10(9) == 10 * pow10(8));
}

proof fn lemma_pow10_grow(a: nat, b: nat)
    requires
        a <= b,
    ensures
        pow10(a) <= pow10(b),
    decreases b,
{
    if a < b {
        lemma_pow10_grow(a, (b - 1) as nat);
        assert(pow10(b) == 10 * pow10((b - 1) as nat));
        assert(pow10((b - 1) as nat) <= 10 * pow10((b - 1) as nat)) by (nonlinear_arith)
            requires
                pow10((b - 1) as nat) >= 0,
        ;
    }
}

/// `10^k` for the at most nine fraction digits kept.
fn pow10_exec(k: u64) -> (r: u64)
    requires
        k <= 9,
    ensures
        r == pow10(k as nat),
        r >= 1,
{
    let mut r: u64 = 1;
    let mut i: u64 = 0;
    while i < k
        invariant
            i <= k <= 9,
            r == pow10(i as nat),
        decreases k - i,
    {
        proof {
            lemma_pow10_grow(i as nat, 8);
            lemma_pow10_values();
        }
        r = r * 10;
        i = i + 1;
    }
    proof {
        lemma_pow10_grow(0, k as nat);
    }
    r
}

/// Parses a duration string such as `500ms`, `3s`, `2m`, `1.5h` or a bare
/// count of seconds, to milliseconds. A malformed number, and a value beyond
/// what milliseconds in 64 bits can hold, are rejected.
#[verifier::rlimit(60)]
pub fn parse_duration(s: &str) -> (r: Result<u64, ConfigError>)
    ensures
        match duration_ms_spec(s@) {
            Option::Some(v) => r == if v <= u64::MAX {
                Result::<u64, ConfigError>::Ok(v as u64)
            } else {
                Result::<u64, ConfigError>::Err(ConfigError::InvalidDuration)
            },
            Option::None => r == Result::<u64, ConfigError>::Err(ConfigError::InvalidDuration),
        },
{
    let sv = crate::text::chars_of(s);
    let tr = crate::text::trim_chars(&sv);
    let st = crate::text::lower_chars(&tr);
    let ghost stv = st@;
    let n = st.len();
    let (factor, cut): (u64, usize) = if n >= 2 && st[n - 2] == 'm' && st[n - 1] == 's' {
        (1, 2)
    } else if n >= 1 && st[n - 1] == 's' {
        (1000, 1)
    } else if n >= 1 && st[n - 1] == 'm' {
        (60000, 1)
    } else if n >= 1 && st[n - 1] == 'h' {
        (3600000, 1)
    } else {
        (1000, 0)
    };
    proof {
        assert(factor == unit_factor(unit_of(stv)));
    }
    let mut raw: Vec<char> = Vec::new();
    let mut k: usize = 0;
    while k < n - cut
        invariant
            cut <= n == st@.len(),
            k <= n - cut,
            raw@ == st@.take(k as int),
        decreases n - cut - k,
    {
        raw.push(st[k]);
        k = k + 1;
        proof {
            assert(raw@ =~= st@.take(k as int));
        }
    }
    proof {
        assert(raw@ =~= num_part(stv));
    }
    let np = crate::text::trim_chars(&raw);
    let ghost npv = np@;
    proof {
        assert(npv == crate::text::trim_spec(num_part(stv)));
    }
    if np.len() == 0 {
        return Err(ConfigError::InvalidDuration);
    }
    let mut dp: usize = np.len();
    let mut j: usize = 0;
    let mut ok = true;
    while j < np.len()
        invariant
            j <= np@.len(),
            np@ == npv,
            dp == np@.len() || (dp < j && np@[dp as int] == '.'),
            forall|m: int| 0 <= m < j && m < dp ==> np@[m] != '.',
            ok ==> (forall|m: int| 0 <= m < j && m != dp ==> is_digit(#[trigger] np@[m])),
            !ok ==> !decimal_ok(npv),
        decreases np@.len() - j,
    {
        let c = np[j];
        if c == '.' {
            if dp < np.len() {
                proof {
                    lemma_first_occ_is(npv, '.', dp as int);
                    assert(!is_digit(npv[j as int]));
                    assert(!decimal_ok(npv));
                }
                ok = false;
            } else {
                dp = j;
            }
        } else if !('0' <= c && c <= '9') {
            proof {
                if dp < np@.len() {
                    lemma_first_occ_is(npv, '.', dp as int);
                    assert(first_occ(npv, '.') < j as int);
                    assert(!is_digit(npv[j as int]));
                } else {
                    lemma_first_occ(npv, '.');
                    if first_occ(npv, '.') <= j as int {
                        assert(npv[first_occ(npv, '.')] == '.');
                        assert(first_occ(npv, '.') == j as int);
                    }
                    assert(first_occ(npv, '.') > j as int);
                    assert(!is_digit(npv[j as int]));
                }
                assert(!decimal_ok(npv));
            }
            ok = false;
        }
        j = j + 1;
    }
    proof {
        if dp < np@.len() {
            lemma_first_occ_is(npv, '.', dp as int);
        } else {
            lemma_first_occ_is(npv, '.', npv.len() as int);
        }
        assert(first_occ(npv, '.') == dp as int);
    }
    if !ok {
        return Err(ConfigError::InvalidDuration);
    }
    if dp == 0 && np.len() == 1 {
        return Err(ConfigError::InvalidDuration);
    }
    proof {
        assert(decimal_ok(npv));
    }
    let ghost whole_s = npv.take(dp as int);
    let mut whole: u64 = 0;
    let mut over = false;
    let mut w: usize = 0;
    while w < dp
        invariant
            w <= dp <= np@.len(),
            np@ == npv,
            whole_s == npv.take(dp as int),
            forall|m: int| 0 <= m < dp ==> is_digit(#[trigger] npv[m]),
            !over ==> whole == digits_val(whole_s.take(w as int)),
            over ==> digits_val(whole_s.take(w as int)) > u64::MAX,
        decreases dp - w,
    {
        let c = np[w];
        let d: u64 = (c as u32 - 48) as u64;
        proof {
            assert(is_digit(npv[w as int]));
            assert(whole_s.take(w as int + 1).drop_last() =~= whole_s.take(w as int));
            assert(whole_s.take(w as int + 1).last() == npv[w as int]);
            assert(digits_val(whole_s.take(w as int + 1)) == digits_val(whole_s.take(w as int))
                * 10 + d);
        }
        if over || whole > (u64::MAX - d) / 10 {
            proof {
                let pre = digits_val(whole_s.take(w as int));
                if !over {
                    assert(pre * 10 + d > u64::MAX) by (nonlinear_arith)
                        requires
                            pre > ((u64::MAX - d) as int) / 10,
                            pre == whole,
                            0 <= d <= 9,
                    ;
                } else {
                    assert(pre <= pre * 10) by (nonlinear_arith)
                        requires
                            pre >= 0,
                    ;
                }
            }
            over = true;
        } else {
            proof {
                assert(whole * 10 + d <= u64::MAX) by (nonlinear_arith)
                    requires
                        whole <= ((u64::MAX - d) as int) / 10,
                        0 <= d <= 9,
                ;
            }
            whole = whole * 10 + d;
        }
        w = w + 1;
    }
    proof {
        assert(whole_s.take(dp as int) =~= whole_s);
    }
    if over {
        proof {
            let u = unit_of(stv);
            assert(digits_val(whole_s) > u64::MAX);
            assert(digits_val(whole_s) * unit_factor(u) >= digits_val(whole_s) * 1)
                by (nonlinear_arith)
                requires
                    unit_factor(u) >= 1,
                    digits_val(whole_s) >= 0,
            ;
            assert(digits_val(whole_s) * 1 == digits_val(whole_s));
            let dpp = first_occ(npv, '.');
            let fr = if dpp < npv.len() {
                npv.skip(dpp + 1)
            } else {
                Seq::<char>::empty()
            };
            let kq: nat = if fr.len() < 9 {
                fr.len()
            } else {
                9nat
            };
            assert(duration_ms_spec(s@) == Option::Some(
                (digits_val(npv.take(dpp)) * unit_factor(u) + digits_val(fr.take(kq as int))
                    * unit_factor(u) / pow10(kq)) as nat,
            ));
            assert(npv.take(dpp) == whole_s);
            let vspec = duration_ms_spec(s@)->Some_0;
            assert(vspec == digits_val(whole_s) * unit_factor(u) + digits_val(fr.take(
                kq as int,
            )) * unit_factor(u) / pow10(kq));
            lemma_pow10_grow(0, kq);
            assert(pow10(kq) >= 1);
            assert(digits_val(fr.take(kq as int)) * unit_factor(u) / pow10(kq) >= 0) by {
                vstd::arithmetic::div_mod::lemma_div_pos_is_pos(
                    (digits_val(fr.take(kq as int)) * unit_factor(u)) as int,
                    pow10(kq) as int,
                );
            }
            assert(vspec >= digits_val(whole_s) * unit_factor(u));
            assert(vspec > u64::MAX);
        }
        return Err(ConfigError::InvalidDuration);
    }
    let ghost frac_s = if (dp as int) < npv.len() {
        npv.skip(dp as int + 1)
    } else {
        Seq::<char>::empty()
    };
    let ghost kk: nat = if frac_s.len() < 9 {
        frac_s.len()
    } else {
        9nat
    };
    let mut fv: u64 = 0;
    let mut fk: u64 = 0;
    if dp < np.len() {
        let mut q: usize = dp + 1;
        while q < np.len() && fk < 9
            invariant
                dp + 1 <= q <= np@.len(),
                np@ == npv,
                (dp as int) < npv.len(),
                frac_s == npv.skip(dp as int + 1),
                forall|m: int| dp < m < npv.len() ==> is_digit(#[trigger] npv[m]),
                fk == q - dp - 1,
                fk <= 9,
                fv == digits_val(frac_s.take(fk as int)),
                fv < pow10(fk as nat),
            decreases np@.len() - q,
        {
            let c = np[q];
            let d: u64 = (c as u32 - 48) as u64;
            proof {
                assert(is_digit(npv[q as int]));
                assert(frac_s.take(fk as int + 1).drop_last() =~= frac_s.take(fk as int));
                assert(frac_s.take(fk as int + 1).last() == npv[q as int]);
                assert(pow10(fk as nat + 1) == 10 * pow10(fk as nat));
                lemma_pow10_grow(fk as nat + 1, 9);
                lemma_pow10_values();
                assert(fv * 10 + d < pow10(fk as nat) * 10) by (nonlinear_arith)
                    requires
                        fv < pow10(fk as nat),
                        0 <= d <= 9,
                ;
            }
            fv = fv * 10 + d;
            fk = fk + 1;
            q = q + 1;
        }
        proof {
            if fk < 9 {
                assert(frac_s.take(fk as int) =~= frac_s);
            }
            assert(fk == kk);
        }
    } else {
        proof {
            assert(frac_s =~= Seq::<char>::empty());
            assert(frac_s.take(0) =~= frac_s);
            assert(kk == 0);
        }
    }
    proof {
        assert(fv == digits_val(frac_s.take(kk as int)));
    }
    let p10: u64 = pow10_exec(fk);
    let a128: u128 = (whole as u128) * (factor as u128);
    let b128: u128 = (fv as u128) * (factor as u128);
    proof {
        assert((whole as int) * (factor as int) <= (0xffffffffffffffff as int) * 3600000)
            by (nonlinear_arith)
            requires
                0 <= whole <= u64::MAX,
                0 <= factor <= 3600000,
        ;
        assert((fv as int) * (factor as int) <= (0xffffffffffffffff as int) * 3600000) by (nonlinear_arith)
            requires
                0 <= fv <= u64::MAX,
                0 <= factor <= 3600000,
        ;
    }
    let total: u128 = a128 + b128 / (p10 as u128);
    proof {
        vstd::arithmetic::div_mod::lemma_div_is_ordered(
            b128 as int,
            (0xffffffffffffffff as int) * 3600000,
            p10 as int,
        );
        vstd::arithmetic::div_mod::lemma_div_by_multiple((0xffffffffffffffff as int) * 3600000, 1);
        assert((b128 as int) / (p10 as int) <= (0xffffffffffffffff as int) * 3600000) by {
            vstd::arithmetic::div_mod::lemma_div_is_ordered_by_denominator(
                (0xffffffffffffffff as int) * 3600000,
                1,
                p10 as int,
            );
        }
        assert(total == duration_ms_spec(s@)->Some_0);
    }
    if total > u64::MAX as u128 {
        return Err(ConfigError::InvalidDuration);
    }
    Ok(total as u64)
}

} // verus!
