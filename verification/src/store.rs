//! The result store, grouped by TLD.
//!
//! Results live in per-TLD groups, one group per `<tld>.txt` file of the
//! storage directory; the persistence itself happens outside the library,
//! which keeps the groups as in-memory rows with exact contracts. A malformed
//! domain — no dot, or a leading or trailing dot — is silently dropped, as
//! the storage layer does.
use vstd::prelude::*;

use crate::text::views_of;
use vstd::multiset::Multiset;

verus! {

/// The TLD of a stored domain: everything after the last dot, provided the
/// dot is neither first nor last.
pub open spec fn extract_tld_spec(d: Seq<char>) -> Option<Seq<char>> {
    if (exists|i: int| 0 <= i < d.len() && d[i] == '.') {
        let i = last_dot(d);
        if i == 0 || i == d.len() - 1 {
            Option::None
        } else {
            Option::Some(d.skip(i + 1))
        }
    } else {
        Option::None
    }
}

/// The index of the last dot of `d`.
pub open spec fn last_dot(d: Seq<char>) -> int {
    choose|i: int| 0 <= i < d.len() && d[i] == '.' && (forall|j: int|
        i < j < d.len() ==> d[j] != '.')
}

/// A domain the store keeps: its TLD can be extracted.
pub open spec fn storable(d: Seq<char>) -> bool {
    extract_tld_spec(d) is Some
}

/// Finds the TLD of a domain, as the store files it.
pub fn extract_tld(domain: &str) -> (r: Option<String>)
    ensures
        match r {
            Option::Some(t) => extract_tld_spec(domain@) == Option::Some(t@),
            Option::None => extract_tld_spec(domain@) is None,
        },
{
    let v = crate::text::chars_of(domain);
    let mut i: usize = v.len();
    loop
        invariant
            i <= v.len(),
            v@ == domain@,
            forall|j: int| i <= j < v@.len() ==> v@[j] != '.',
        decreases i,
    {
        if i == 0 {
            proof {
                assert(forall|j: int| 0 <= j < domain@.len() ==> domain@[j] != '.');
            }
            return None;
        }
        i = i - 1;
        if v[i] == '.' {
            proof {
                assert(last_dot(domain@) == i as int) by {
                    assert(domain@[i as int] == '.' && (forall|j: int|
                        i < j < domain@.len() ==> domain@[j] != '.'));
                    let w = last_dot(domain@);
                    if w != i {
                        assert(0 <= w < domain@.len() && domain@[w] == '.' && (forall|j: int|
                            w < j < domain@.len() ==> domain@[j] != '.'));
                    }
                }
            }
            if i == 0 || i == v.len() - 1 {
                return None;
            }
            let mut t: Vec<char> = Vec::new();
            let mut j: usize = i + 1;
            while j < v.len()
                invariant
                    i + 1 <= j <= v@.len(),
                    v@ == domain@,
                    t@ == v@.subrange(i as int + 1, j as int),
                decreases v@.len() - j,
            {
                t.push(v[j]);
                j = j + 1;
                proof {
                    assert(t@ =~= v@.subrange(i as int + 1, j as int));
                }
            }
            proof {
                assert(t@ =~= domain@.skip(i as int + 1));
            }
            return Some(crate::text::string_of(&t));
        }
    }
}

/// In-memory result groups: `tlds[i]` names the group that holds the rows of
/// `rows[i]`, in append order.
pub struct DomainStore {
    pub tlds: Vec<String>,
    pub rows: Vec<Vec<String>>,
}

impl DomainStore {
    /// Group names are distinct and each group has its rows.
    pub open spec fn wf(self) -> bool {
        &&& self.tlds@.len() == self.rows@.len()
        &&& forall|i: int, j: int|
            0 <= i < j < self.tlds@.len() ==> self.tlds@[i]@ != self.tlds@[j]@
    }

    pub open spec fn has_key(self, t: Seq<char>) -> bool {
        exists|i: int| 0 <= i < self.tlds@.len() && self.tlds@[i]@ == t
    }

    pub open spec fn key_at(self, t: Seq<char>) -> int {
        choose|i: int| 0 <= i < self.tlds@.len() && self.tlds@[i]@ == t
    }

    /// The rows stored under a group, in append order; empty when absent.
    pub open spec fn stored(self, t: Seq<char>) -> Seq<Seq<char>> {
        if self.has_key(t) {
            views_of(self.rows@[self.key_at(t)]@)
        } else {
            Seq::empty()
        }
    }

    /// Every stored row, group by group.
    pub open spec fn all_rows(self) -> Seq<Seq<char>> {
        flatten_rows(self.rows@)
    }

    /// What the store holds, regardless of grouping and order.
    pub open spec fn model(self) -> Multiset<Seq<char>> {
        self.all_rows().to_multiset()
    }

    pub fn new() -> (r: DomainStore)
        ensures
            r.wf(),
            r.all_rows() == Seq::<Seq<char>>::empty(),
            r.model() == Multiset::<Seq<char>>::empty(),
            forall|t: Seq<char>| r.stored(t) == Seq::<Seq<char>>::empty(),
    {
        let r = DomainStore { tlds: Vec::new(), rows: Vec::new() };
        proof {
            assert(r.all_rows() =~= Seq::<Seq<char>>::empty());
            lemma_to_multiset_empty();
        }
        r
    }
}

/// The empty sequence holds the empty multiset.
pub proof fn lemma_to_multiset_empty()
    ensures
        Seq::<Seq<char>>::empty().to_multiset() == Multiset::<Seq<char>>::empty(),
{
    broadcast use vstd::seq_lib::group_to_multiset_ensures;

    let s = Seq::<Seq<char>>::empty();
    assert forall|a: Seq<char>| s.to_multiset().count(a) == Multiset::<Seq<char>>::empty().count(
        a,
    ) by {
        assert(!s.contains(a));
    }
    assert(s.to_multiset() =~= Multiset::<Seq<char>>::empty());
}

/// Every row of every group, in group order.
pub open spec fn flatten_rows(rows: Seq<Vec<String>>) -> Seq<Seq<char>>
    decreases rows.len(),
{
    if rows.len() == 0 {
        Seq::empty()
    } else {
        views_of(rows[0]@) + flatten_rows(rows.skip(1))
    }
}


/// Flattening a store with one more group appends that group's rows.
proof fn lemma_flatten_push_group(rows: Seq<Vec<String>>, r: Vec<String>)
    ensures
        flatten_rows(rows.push(r)) == flatten_rows(rows) + views_of(r@),
    decreases rows.len(),
{
    if rows.len() == 0 {
        assert(rows.push(r).skip(1) =~= Seq::<Vec<String>>::empty());
        assert(rows.push(r)[0] == r);
        assert(flatten_rows(rows.push(r)) == views_of(r@) + flatten_rows(rows.push(r).skip(1)));
        assert(flatten_rows(Seq::<Vec<String>>::empty()) =~= Seq::<Seq<char>>::empty());
        assert(views_of(r@) + Seq::<Seq<char>>::empty() =~= views_of(r@));
        assert(flatten_rows(rows) + views_of(r@) =~= views_of(r@));
    } else {
        assert(rows.push(r).skip(1) =~= rows.skip(1).push(r));
        lemma_flatten_push_group(rows.skip(1), r);
        assert(rows.push(r)[0] == rows[0]);
        assert(flatten_rows(rows.push(r)) == views_of(rows[0]@) + (flatten_rows(rows.skip(1))
            + views_of(r@)));
        assert(views_of(rows[0]@) + (flatten_rows(rows.skip(1)) + views_of(r@)) =~= (views_of(
            rows[0]@,
        ) + flatten_rows(rows.skip(1))) + views_of(r@));
    }
}

/// Appending one row to a group inserts it into the store's multiset.
proof fn lemma_flatten_update(rows: Seq<Vec<String>>, i: int, nr: Vec<String>, d: Seq<char>)
    requires
        0 <= i < rows.len(),
        views_of(nr@) == views_of(rows[i]@).push(d),
    ensures
        flatten_rows(rows.update(i, nr)).to_multiset() == flatten_rows(rows).to_multiset().insert(
            d,
        ),
    decreases rows.len(),
{
    broadcast use vstd::seq_lib::group_to_multiset_ensures;

    let rows2 = rows.update(i, nr);
    if i == 0 {
        assert(rows2.skip(1) =~= rows.skip(1));
        let a = views_of(rows[0]@);
        let b = flatten_rows(rows.skip(1));
        assert(rows2[0] == nr);
        assert(flatten_rows(rows2) == a.push(d) + b);
        assert(flatten_rows(rows) == a + b);
        vstd::seq_lib::lemma_multiset_commutative(a.push(d), b);
        vstd::seq_lib::lemma_multiset_commutative(a, b);
        assert(a.push(d).to_multiset() =~= a.to_multiset().insert(d));
        assert(a.to_multiset().insert(d).add(b.to_multiset()) =~= a.to_multiset().add(
            b.to_multiset(),
        ).insert(d));
    } else {
        assert(rows2.skip(1) =~= rows.skip(1).update(i - 1, nr));
        assert(rows.skip(1)[i - 1] == rows[i]);
        lemma_flatten_update(rows.skip(1), i - 1, nr, d);
        let a = views_of(rows[0]@);
        let b = flatten_rows(rows.skip(1));
        let b2 = flatten_rows(rows2.skip(1));
        assert(rows2[0] == rows[0]);
        assert(flatten_rows(rows2) == a + b2);
        assert(flatten_rows(rows) == a + b);
        vstd::seq_lib::lemma_multiset_commutative(a, b2);
        vstd::seq_lib::lemma_multiset_commutative(a, b);
        assert(a.to_multiset().add(b.to_multiset().insert(d)) =~= a.to_multiset().add(
            b.to_multiset(),
        ).insert(d));
    }
}

impl DomainStore {
    /// Files a result under its TLD, in append order; a domain without an
    /// extractable TLD is dropped silently, and nothing else changes.
    pub fn add(&mut self, domain: &str)
        requires
            old(self).wf(),
        ensures
            final(self).wf(),
            !storable(domain@) ==> *final(self) == *old(self),
            storable(domain@) ==> {
                let t = extract_tld_spec(domain@)->Some_0;
                &&& final(self).stored(t) == old(self).stored(t).push(domain@)
                &&& (forall|u: Seq<char>| u != t ==> final(self).stored(u) == old(self).stored(u))
                &&& final(self).model() == old(self).model().insert(domain@)
            },
    {
        let tl = extract_tld(domain);
        match tl {
            Option::None => {},
            Option::Some(t) => {
                let ghost tv = t@;
                let mut i: usize = 0;
                while i < self.tlds.len()
                    invariant
                        *self == *old(self),
                        old(self).wf(),
                        i <= self.tlds@.len(),
                        storable(domain@),
                        tv == extract_tld_spec(domain@)->Some_0,
                        t@ == tv,
                        forall|j: int| 0 <= j < i ==> self.tlds@[j]@ != tv,
                    decreases self.tlds@.len() - i,
                {
                    if self.tlds[i].eq(&t) {
                        let ghost oldrows = self.rows@;
                        let ghost oldrow = self.rows@[i as int];
                        let row = &mut self.rows[i];
                        row.push(domain.to_owned());
                        proof {
                            assert(self.tlds@[i as int]@ == tv);
                            assert(old(self).has_key(tv));
                            assert(old(self).key_at(tv) == i as int) by {
                                let w = old(self).key_at(tv);
                                assert(0 <= w < old(self).tlds@.len() && old(self).tlds@[w]@
                                    == tv);
                            }
                            assert(views_of(self.rows@[i as int]@) =~= views_of(oldrow@).push(
                                domain@,
                            ));
                            lemma_flatten_update(oldrows, i as int, self.rows@[i as int], domain@);
                            assert(self.rows@ == oldrows.update(i as int, self.rows@[i as int]));
                            assert(self.stored(tv) =~= old(self).stored(tv).push(domain@));
                            assert forall|u: Seq<char>| u != tv implies self.stored(u) == old(
                                self,
                            ).stored(u) by {
                                if old(self).has_key(u) {
                                    let w = old(self).key_at(u);
                                    assert(self.tlds@[w]@ == u);
                                    assert(self.key_at(u) == w);
                                    assert(w != i as int);
                                    assert(self.stored(u) =~= old(self).stored(u));
                                } else {
                                    assert(!self.has_key(u));
                                }
                            }
                        }
                        return ;
                    }
                    i = i + 1;
                }
                let ghost oldrows = self.rows@;
                let ghost oldlen = self.tlds@.len();
                self.tlds.push(t);
                let mut row: Vec<String> = Vec::new();
                row.push(domain.to_owned());
                let ghost newrow = row;
                self.rows.push(row);
                proof {
                    assert(forall|j: int| 0 <= j < oldlen ==> old(self).tlds@[j]@ != tv);
                    assert(!old(self).has_key(tv));
                    assert(self.tlds@[oldlen as int]@ == tv);
                    assert(self.has_key(tv));
                    assert(self.key_at(tv) == oldlen) by {
                        let w = self.key_at(tv);
                        assert(0 <= w < self.tlds@.len() && self.tlds@[w]@ == tv);
                        if w < oldlen {
                            assert(old(self).tlds@[w]@ == tv);
                        }
                    }
                    assert(views_of(newrow@) =~= seq![domain@]);
                    lemma_flatten_push_group(oldrows, newrow);
                    broadcast use vstd::seq_lib::group_to_multiset_ensures;

                    vstd::seq_lib::lemma_multiset_commutative(flatten_rows(oldrows), seq![domain@]);
                    assert(seq![domain@] =~= Seq::<Seq<char>>::empty().push(domain@));
                    lemma_to_multiset_empty();
                    assert(seq![domain@].to_multiset() =~= Multiset::<Seq<char>>::empty().insert(
                        domain@,
                    ));
                    assert(flatten_rows(oldrows).to_multiset().add(
                        Multiset::<Seq<char>>::empty().insert(domain@),
                    ) =~= flatten_rows(oldrows).to_multiset().insert(domain@));
                    assert(self.stored(tv) =~= old(self).stored(tv).push(domain@));
                    assert forall|u: Seq<char>| u != tv implies self.stored(u) == old(
                        self,
                    ).stored(u) by {
                        if old(self).has_key(u) {
                            let w = old(self).key_at(u);
                            assert(self.tlds@[w]@ == u);
                            assert(self.key_at(u) == w);
                            assert(self.stored(u) =~= old(self).stored(u));
                        } else {
                            if self.has_key(u) {
                                let w = self.key_at(u);
                                assert(0 <= w < self.tlds@.len() && self.tlds@[w]@ == u);
                                assert(w == oldlen);
                            }
                        }
                    }
                }
            },
        }
    }
}


/// One byte per character plus a newline for every stored row: the size
/// estimate the stats report uses.
pub open spec fn approx_bytes_of(ds: Seq<Seq<char>>) -> int
    decreases ds.len(),
{
    if ds.len() == 0 {
        0
    } else {
        approx_bytes_of(ds.drop_last()) + ds.last().len() + 1
    }
}

/// Byte counts add up over concatenation.
proof fn lemma_approx_bytes_add(a: Seq<Seq<char>>, b: Seq<Seq<char>>)
    ensures
        approx_bytes_of(a + b) == approx_bytes_of(a) + approx_bytes_of(b),
    decreases b.len(),
{
    if b.len() == 0 {
        assert(a + b =~= a);
    } else {
        assert((a + b).drop_last() =~= a + b.drop_last());
        assert((a + b).last() == b.last());
        lemma_approx_bytes_add(a, b.drop_last());
    }
}

impl DomainStore {
    /// The rows filed under `tld`, after trimming and lowercasing the name;
    /// a blank name yields nothing.
    pub fn list(&self, tld: &str) -> (r: Vec<String>)
        requires
            self.wf(),
        ensures
            views_of(r@) == self.stored(crate::text::lower(crate::text::trim_spec(tld@))),
    {
        let v = crate::text::chars_of(tld);
        let tr = crate::text::trim_chars(&v);
        let lo = crate::text::lower_chars(&tr);
        let key = crate::text::string_of(&lo);
        let ghost kv = key@;
        let mut i: usize = 0;
        while i < self.tlds.len()
            invariant
                self.wf(),
                i <= self.tlds@.len(),
                kv == crate::text::lower(crate::text::trim_spec(tld@)),
                key@ == kv,
                forall|j: int| 0 <= j < i ==> self.tlds@[j]@ != kv,
            decreases self.tlds@.len() - i,
        {
            if self.tlds[i].eq(&key) {
                proof {
                    assert(self.has_key(kv));
                    assert(self.key_at(kv) == i as int) by {
                        let w = self.key_at(kv);
                        assert(0 <= w < self.tlds@.len() && self.tlds@[w]@ == kv);
                    }
                }
                let row = &self.rows[i];
                let mut out: Vec<String> = Vec::new();
                let mut j: usize = 0;
                while j < row.len()
                    invariant
                        j <= row@.len(),
                        views_of(out@) == views_of(row@).take(j as int),
                    decreases row@.len() - j,
                {
                    let ghost prev = out@;
                    out.push(row[j].clone());
                    j = j + 1;
                    proof {
                        crate::text::lemma_views_push(prev, row@[j - 1]);
                        assert(out@ == prev.push(row@[j - 1]));
                        assert(views_of(out@) =~= views_of(row@).take(j as int));
                    }
                }
                proof {
                    assert(views_of(out@) =~= views_of(row@));
                }
                return out;
            }
            i = i + 1;
        }
        proof {
            assert(!self.has_key(kv));
        }
        Vec::new()
    }

    /// Every stored row, group by group, append order kept within a group.
    pub fn list_all(&self) -> (r: Vec<String>)
        requires
            self.wf(),
        ensures
            views_of(r@) == self.all_rows(),
            views_of(r@).to_multiset() == self.model(),
    {
        let mut out: Vec<String> = Vec::new();
        let mut i: usize = 0;
        proof {
            assert(self.rows@.take(0) =~= Seq::<Vec<String>>::empty());
            assert(views_of(out@) =~= flatten_rows(self.rows@.take(0)));
        }
        while i < self.rows.len()
            invariant
                self.wf(),
                i <= self.rows@.len(),
                views_of(out@) == flatten_rows(self.rows@.take(i as int)),
            decreases self.rows@.len() - i,
        {
            let row = &self.rows[i];
            let mut j: usize = 0;
            while j < row.len()
                invariant
                    j <= row@.len(),
                    row == &self.rows@[i as int],
                    i < self.rows@.len(),
                    views_of(out@) == flatten_rows(self.rows@.take(i as int)) + views_of(
                        row@,
                    ).take(j as int),
                decreases row@.len() - j,
            {
                let ghost prev = out@;
                out.push(row[j].clone());
                j = j + 1;
                proof {
                    crate::text::lemma_views_push(prev, row@[j - 1]);
                    assert(out@ == prev.push(row@[j - 1]));
                    assert(views_of(out@) =~= flatten_rows(self.rows@.take(i as int)) + views_of(
                        row@,
                    ).take(j as int));
                }
            }
            i = i + 1;
            proof {
                assert(self.rows@.take(i as int) =~= self.rows@.take(i as int - 1).push(
                    self.rows@[i as int - 1],
                ));
                lemma_flatten_push_group(self.rows@.take(i as int - 1), self.rows@[i as int - 1]);
                assert(views_of(self.rows@[i as int - 1]@).take(self.rows@[i as int - 1]@.len()
                    as int) =~= views_of(self.rows@[i as int - 1]@));
            }
        }
        proof {
            assert(self.rows@.take(self.rows@.len() as int) =~= self.rows@);
        }
        out
    }

    /// An estimate of the stored volume: one byte per character and newline,
    /// saturating at the largest representable size.
    pub fn approx_bytes(&self) -> (r: u64)
        requires
            self.wf(),
        ensures
            r == if approx_bytes_of(self.all_rows()) <= u64::MAX {
                approx_bytes_of(self.all_rows())
            } else {
                u64::MAX as int
            },
    {
        let mut total: u64 = 0;
        let mut i: usize = 0;
        proof {
            assert(self.rows@.take(0) =~= Seq::<Vec<String>>::empty());
        }
        while i < self.rows.len()
            invariant
                self.wf(),
                i <= self.rows@.len(),
                total == if approx_bytes_of(flatten_rows(self.rows@.take(i as int))) <= u64::MAX {
                    approx_bytes_of(flatten_rows(self.rows@.take(i as int)))
                } else {
                    u64::MAX as int
                },
            decreases self.rows@.len() - i,
        {
            let row = &self.rows[i];
            let mut j: usize = 0;
            while j < row.len()
                invariant
                    j <= row@.len(),
                    row == &self.rows@[i as int],
                    i < self.rows@.len(),
                    total == if approx_bytes_of(
                        flatten_rows(self.rows@.take(i as int)) + views_of(row@).take(j as int),
                    ) <= u64::MAX {
                        approx_bytes_of(
                            flatten_rows(self.rows@.take(i as int)) + views_of(row@).take(
                                j as int,
                            ),
                        )
                    } else {
                        u64::MAX as int
                    },
                decreases row@.len() - j,
            {
                let n = row[j].as_str().unicode_len();
                let add_bytes: u64 = if n as u64 >= u64::MAX {
                    u64::MAX
                } else {
                    n as u64 + 1
                };
                total = if total >= u64::MAX - add_bytes {
                    u64::MAX
                } else {
                    total + add_bytes
                };
                j = j + 1;
                proof {
                    let prev = flatten_rows(self.rows@.take(i as int)) + views_of(row@).take(
                        j as int - 1,
                    );
                    let cur = flatten_rows(self.rows@.take(i as int)) + views_of(row@).take(
                        j as int,
                    );
                    assert(cur =~= prev.push(row@[j - 1]@));
                    assert(cur.drop_last() =~= prev);
                    assert(approx_bytes_of(cur) == approx_bytes_of(prev) + row@[j - 1]@.len()
                        + 1);
                    assert(approx_bytes_of(prev) >= 0) by {
                        lemma_approx_bytes_nonneg(prev);
                    }
                }
            }
            i = i + 1;
            proof {
                assert(self.rows@.take(i as int) =~= self.rows@.take(i as int - 1).push(
                    self.rows@[i as int - 1],
                ));
                lemma_flatten_push_group(self.rows@.take(i as int - 1), self.rows@[i as int - 1]);
                assert(views_of(self.rows@[i as int - 1]@).take(self.rows@[i as int - 1]@.len()
                    as int) =~= views_of(self.rows@[i as int - 1]@));
            }
        }
        proof {
            assert(self.rows@.take(self.rows@.len() as int) =~= self.rows@);
        }
        total
    }

    /// Forgets everything stored.
    pub fn reset(&mut self)
        ensures
            final(self).wf(),
            final(self).all_rows() == Seq::<Seq<char>>::empty(),
            final(self).model() == Multiset::<Seq<char>>::empty(),
            forall|t: Seq<char>| final(self).stored(t) == Seq::<Seq<char>>::empty(),
    {
        self.tlds.clear();
        self.rows.clear();
        proof {
            assert(self.all_rows() =~= Seq::<Seq<char>>::empty());
            lemma_to_multiset_empty();
        }
    }
}

/// Bytes never count negative.
proof fn lemma_approx_bytes_nonneg(ds: Seq<Seq<char>>)
    ensures
        approx_bytes_of(ds) >= 0,
    decreases ds.len(),
{
    if ds.len() > 0 {
        lemma_approx_bytes_nonneg(ds.drop_last());
    }
}

/// The store a run of `add` calls builds from empty: each storable domain is
/// filed, everything else is dropped.
pub open spec fn model_after(adds: Seq<Seq<char>>) -> Multiset<Seq<char>>
    decreases adds.len(),
{
    if adds.len() == 0 {
        Multiset::empty()
    } else if storable(adds.last()) {
        model_after(adds.drop_last()).insert(adds.last())
    } else {
        model_after(adds.drop_last())
    }
}

/// Round trip: after a reset, adding domains one by one leaves the store
/// holding exactly the storable ones among them, as a multiset — nothing
/// lost, nothing duplicated, order immaterial. `reset` and `add` establish
/// `model_after` step by step, and `list_all` returns the model.
pub proof fn lemma_store_round_trip(adds: Seq<Seq<char>>)
    ensures
        model_after(adds) == adds.filter(|d: Seq<char>| storable(d)).to_multiset(),
    decreases adds.len(),
{
    broadcast use vstd::seq_lib::group_to_multiset_ensures;

    reveal(Seq::filter);
    let pred = |d: Seq<char>| storable(d);
    if adds.len() == 0 {
        lemma_to_multiset_empty();
        assert(adds.filter(pred) =~= Seq::<Seq<char>>::empty());
    } else {
        lemma_store_round_trip(adds.drop_last());
        if storable(adds.last()) {
            assert(adds.filter(pred) == adds.drop_last().filter(pred).push(adds.last()));
        } else {
            assert(adds.filter(pred) == adds.drop_last().filter(pred));
        }
    }
}

} // verus!
