//! The aggregator: a mapping from category name to accumulated counts,
//! with the merge semantics that make directory traversal order irrelevant.

use vstd::prelude::*;
use crate::loc::LocData;

verus! {

/// The four accumulated counts of one category, as mathematical integers.
pub ghost struct CatCounts {
    pub files: int,
    pub blank: int,
    pub comment: int,
    pub code: int,
}

/// The counts held by one record.
pub open spec fn counts_of(d: LocData) -> CatCounts {
    CatCounts {
        files: d@.files,
        blank: d@.blank,
        comment: d@.comment,
        code: d@.code,
    }
}

pub open spec fn add_counts(a: CatCounts, b: CatCounts) -> CatCounts {
    CatCounts {
        files: a.files + b.files,
        blank: a.blank + b.blank,
        comment: a.comment + b.comment,
        code: a.code + b.code,
    }
}

/// The mapping a sequence of records stands for: each category name maps to
/// the counts of its record (a later record with the same name would win).
pub open spec fn cat_seq_map(s: Seq<LocData>) -> Map<Seq<char>, CatCounts>
    decreases s.len(),
{
    if s.len() == 0 {
        Map::empty()
    } else {
        cat_seq_map(s.drop_last()).insert(s.last().lang@, counts_of(s.last()))
    }
}

/// Merging two category mappings: counts of a name present in both are added
/// component-wise; a name present in one alone keeps its counts.
pub open spec fn merge_maps(
    a: Map<Seq<char>, CatCounts>,
    b: Map<Seq<char>, CatCounts>,
) -> Map<Seq<char>, CatCounts> {
    Map::new(
        |k: Seq<char>| a.contains_key(k) || b.contains_key(k),
        |k: Seq<char>|
            if a.contains_key(k) && b.contains_key(k) {
                add_counts(a[k], b[k])
            } else if b.contains_key(k) {
                b[k]
            } else {
                a[k]
            },
    )
}

/// Folding one category's counts into a mapping: added to the counts already
/// there, or inserted fresh.
pub open spec fn bump(
    m: Map<Seq<char>, CatCounts>,
    k: Seq<char>,
    c: CatCounts,
) -> Map<Seq<char>, CatCounts> {
    if m.contains_key(k) {
        m.insert(k, add_counts(m[k], c))
    } else {
        m.insert(k, c)
    }
}

/// Merging the counts of two runs gives the same mapping in either order.
pub proof fn lemma_merge_commutative(a: Map<Seq<char>, CatCounts>, b: Map<Seq<char>, CatCounts>)
    ensures
        merge_maps(a, b) == merge_maps(b, a),
{
    assert(merge_maps(a, b) =~= merge_maps(b, a));
}

/// Merging is associative: folding subtree results into a parent one by one
/// gives the same mapping as merging them among themselves first.
pub proof fn lemma_merge_associative(
    a: Map<Seq<char>, CatCounts>,
    b: Map<Seq<char>, CatCounts>,
    c: Map<Seq<char>, CatCounts>,
)
    ensures
        merge_maps(a, merge_maps(b, c)) == merge_maps(merge_maps(a, b), c),
{
    assert(merge_maps(a, merge_maps(b, c)) =~= merge_maps(merge_maps(a, b), c));
}

/// The empty mapping is the identity of merging.
pub proof fn lemma_merge_empty(a: Map<Seq<char>, CatCounts>)
    ensures
        merge_maps(a, Map::empty()) == a,
        merge_maps(Map::empty(), a) == a,
{
    assert(merge_maps(a, Map::empty()) =~= a);
    assert(merge_maps(Map::empty(), a) =~= a);
}

/// Merging a mapping whose single entry is fresh in `b` folds that entry in.
pub proof fn lemma_merge_bump(
    a: Map<Seq<char>, CatCounts>,
    b: Map<Seq<char>, CatCounts>,
    k: Seq<char>,
    c: CatCounts,
)
    requires
        !b.contains_key(k),
    ensures
        merge_maps(a, b.insert(k, c)) == bump(merge_maps(a, b), k, c),
{
    assert(merge_maps(a, b.insert(k, c)) =~= bump(merge_maps(a, b), k, c));
}

/// The aggregation mapping: one record per category name.
pub struct Report {
    pub cats: Vec<LocData>,
}

impl Report {
    /// Category names are unique, so the record sequence stands for a mapping.
    pub open spec fn wf(self) -> bool {
        forall|i: int, j: int|
            0 <= i < j < self.cats@.len() ==> #[trigger] self.cats@[i].lang@ != #[trigger] self.cats@[j].lang@
    }

    /// The mapping this aggregator holds.
    pub open spec fn as_map(self) -> Map<Seq<char>, CatCounts> {
        cat_seq_map(self.cats@)
    }

    /// An empty aggregator.
    pub fn new() -> (r: Report)
        ensures
            r.wf(),
            r.as_map() == Map::<Seq<char>, CatCounts>::empty(),
            r.cats@.len() == 0,
    {
        Report { cats: Vec::new() }
    }
}

pub proof fn lemma_cat_seq_map_contains(s: Seq<LocData>, k: Seq<char>)
    ensures
        cat_seq_map(s).contains_key(k) <==> exists|i: int| 0 <= i < s.len() && #[trigger] s[i].lang@ == k,
    decreases s.len(),
{
    if s.len() > 0 {
        lemma_cat_seq_map_contains(s.drop_last(), k);
        if cat_seq_map(s).contains_key(k) {
            if s.last().lang@ == k {
                assert(s[s.len() - 1].lang@ == k);
            } else {
                let i = choose|i: int| 0 <= i < s.drop_last().len() && #[trigger] s.drop_last()[i].lang@ == k;
                assert(s[i].lang@ == k);
            }
        }
        if exists|i: int| 0 <= i < s.len() && #[trigger] s[i].lang@ == k {
            let i = choose|i: int| 0 <= i < s.len() && #[trigger] s[i].lang@ == k;
            if i < s.len() - 1 {
                assert(s.drop_last()[i].lang@ == k);
            }
        }
    }
}

pub proof fn lemma_cat_seq_map_at(s: Seq<LocData>, i: int)
    requires
        0 <= i < s.len(),
        forall|p: int, q: int| 0 <= p < q < s.len() ==> #[trigger] s[p].lang@ != #[trigger] s[q].lang@,
    ensures
        cat_seq_map(s).contains_key(s[i].lang@),
        cat_seq_map(s)[s[i].lang@] == counts_of(s[i]),
    decreases s.len(),
{
    if i == s.len() - 1 {
    } else {
        assert(forall|p: int, q: int|
            0 <= p < q < s.drop_last().len() ==> #[trigger] s.drop_last()[p].lang@ != #[trigger] s.drop_last()[q].lang@);
        lemma_cat_seq_map_at(s.drop_last(), i);
        assert(s.drop_last()[i] == s[i]);
        assert(s[i].lang@ != s.last().lang@);
    }
}

proof fn lemma_cat_seq_map_update(s: Seq<LocData>, i: int, r: LocData)
    requires
        0 <= i < s.len(),
        forall|p: int, q: int| 0 <= p < q < s.len() ==> #[trigger] s[p].lang@ != #[trigger] s[q].lang@,
        r.lang@ == s[i].lang@,
    ensures
        cat_seq_map(s.update(i, r)) == cat_seq_map(s).insert(r.lang@, counts_of(r)),
    decreases s.len(),
{
    let t = s.update(i, r);
    if i == s.len() - 1 {
        assert(t.drop_last() =~= s.drop_last());
        assert(t.last() == r);
        assert(cat_seq_map(s).insert(r.lang@, counts_of(r)) =~= cat_seq_map(s.drop_last()).insert(
            r.lang@,
            counts_of(r),
        ));
    } else {
        assert(forall|p: int, q: int|
            0 <= p < q < s.drop_last().len() ==> #[trigger] s.drop_last()[p].lang@ != #[trigger] s.drop_last()[q].lang@);
        lemma_cat_seq_map_update(s.drop_last(), i, r);
        assert(t.drop_last() =~= s.drop_last().update(i, r));
        assert(t.last() == s.last());
        assert(s[i].lang@ != s.last().lang@);
        assert(cat_seq_map(t) =~= cat_seq_map(s).insert(r.lang@, counts_of(r)));
    }
}

impl Report {
    /// Adds `c` to the record named `lang`, creating the record if the name
    /// is new.  The mapping gains exactly that one contribution.
    #[verifier::loop_isolation(false)]
    pub fn absorb(&mut self, lang: &String, c: LocData) -> (added: bool)
        requires
            old(self).wf(),
            c.lang@ == lang@,
            old(self).as_map().contains_key(lang@) ==> {
                let prev = old(self).as_map()[lang@];
                &&& prev.files + c@.files <= u32::MAX
                &&& prev.blank + c@.blank <= u32::MAX
                &&& prev.comment + c@.comment <= u32::MAX
                &&& prev.code + c@.code <= u32::MAX
            },
        ensures
            final(self).wf(),
            final(self).as_map() == bump(old(self).as_map(), lang@, counts_of(c)),
            added == !old(self).as_map().contains_key(lang@),
    {
        let ghost s0 = self.cats@;
        let n = self.cats.len();
        let mut i: usize = 0;
        while i < n
            invariant
                0 <= i <= n,
                n == self.cats@.len(),
                self.cats@ == s0,
                forall|j: int| 0 <= j < i ==> #[trigger] self.cats@[j].lang@ != lang@,
            decreases n - i,
        {
            if self.cats[i].lang == *lang {
                proof {
                    lemma_cat_seq_map_at(s0, i as int);
                    lemma_cat_seq_map_update(
                        s0,
                        i as int,
                        LocData {
                            lang: self.cats[i as int].lang,
                            files: (self.cats[i as int].files + c.files) as u32,
                            blank: (self.cats[i as int].blank + c.blank) as u32,
                            comment: (self.cats[i as int].comment + c.comment) as u32,
                            code: (self.cats[i as int].code + c.code) as u32,
                        },
                    );
                }
                let rec = &self.cats[i];
                let updated = LocData {
                    lang: rec.lang.clone(),
                    files: rec.files + c.files,
                    blank: rec.blank + c.blank,
                    comment: rec.comment + c.comment,
                    code: rec.code + c.code,
                };
                self.cats[i] = updated;
                proof {
                    assert(self.cats@ =~= s0.update(i as int, self.cats@[i as int]));
                }
                return false;
            }
            i += 1;
        }
        proof {
            lemma_cat_seq_map_contains(s0, lang@);
        }
        self.cats.push(c);
        proof {
            assert(self.cats@.drop_last() =~= s0);
        }
        true
    }

    /// `addFile`: attributes one file's line counts to the category `lang`,
    /// raising its file count by one.
    pub fn add_file(&mut self, lang: String, blank: u32, comment: u32, code: u32)
        requires
            old(self).wf(),
            old(self).as_map().contains_key(lang@) ==> {
                let prev = old(self).as_map()[lang@];
                &&& prev.files + 1 <= u32::MAX
                &&& prev.blank + blank <= u32::MAX
                &&& prev.comment + comment <= u32::MAX
                &&& prev.code + code <= u32::MAX
            },
        ensures
            final(self).wf(),
            final(self).as_map() == bump(
                old(self).as_map(),
                lang@,
                CatCounts { files: 1, blank: blank as int, comment: comment as int, code: code as int },
            ),
    {
        let rec = LocData { lang: lang.clone(), files: 1, blank, comment, code };
        self.absorb(&lang, rec);
    }

    /// `merge(parent, child)`: every category of the child is folded into
    /// the parent, adding all four counts component-wise; names unseen in
    /// the parent are inserted as they are.
    #[verifier::loop_isolation(false)]
    pub fn merge(&mut self, other: &Report)
        requires
            old(self).wf(),
            other.wf(),
            forall|k: Seq<char>|
                old(self).as_map().contains_key(k) && other.as_map().contains_key(k) ==> {
                    let a = old(self).as_map()[k];
                    let b = #[trigger] other.as_map()[k];
                    &&& a.files + b.files <= u32::MAX
                    &&& a.blank + b.blank <= u32::MAX
                    &&& a.comment + b.comment <= u32::MAX
                    &&& a.code + b.code <= u32::MAX
                },
        ensures
            final(self).wf(),
            final(self).as_map() == merge_maps(old(self).as_map(), other.as_map()),
    {
        let ghost a0 = old(self).as_map();
        let n = other.cats.len();
        let mut i: usize = 0;
        proof {
            lemma_merge_empty(a0);
            assert(other.cats@.take(0) =~= Seq::<LocData>::empty());
        }
        while i < n
            invariant
                0 <= i <= n,
                n == other.cats@.len(),
                other.wf(),
                self.wf(),
                self.as_map() == merge_maps(a0, cat_seq_map(other.cats@.take(i as int))),
                forall|k: Seq<char>|
                    a0.contains_key(k) && other.as_map().contains_key(k) ==> {
                        let a = a0[k];
                        let b = #[trigger] other.as_map()[k];
                        &&& a.files + b.files <= u32::MAX
                        &&& a.blank + b.blank <= u32::MAX
                        &&& a.comment + b.comment <= u32::MAX
                        &&& a.code + b.code <= u32::MAX
                    },
            decreases n - i,
        {
            let ghost pre = cat_seq_map(other.cats@.take(i as int));
            let ghost k = other.cats@[i as int].lang@;
            proof {
                assert(other.cats@.take(i as int + 1).drop_last() =~= other.cats@.take(i as int));
                assert(other.cats@.take(i as int + 1).last() == other.cats@[i as int]);
                lemma_cat_seq_map_contains(other.cats@.take(i as int), k);
                assert(forall|j: int|
                    0 <= j < i ==> #[trigger] other.cats@.take(i as int)[j].lang@ == other.cats@[j].lang@);
                assert(!pre.contains_key(k));
                lemma_merge_bump(a0, pre, k, counts_of(other.cats@[i as int]));
                // the requires of absorb: the present value of k in self is a0's
                if self.as_map().contains_key(k) {
                    assert(merge_maps(a0, pre)[k] == a0[k]);
                    lemma_cat_seq_map_at(other.cats@, i as int);
                    assert(other.as_map()[k] == counts_of(other.cats@[i as int]));
                }
            }
            let rec = other.cats[i].duplicate();
            let lang = rec.lang.clone();
            proof {
                assert(rec@ == other.cats@[i as int]@);
                assert(counts_of(rec) == counts_of(other.cats@[i as int]));
            }
            self.absorb(&lang, rec);
            i += 1;
        }
        proof {
            assert(other.cats@.take(n as int) =~= other.cats@);
        }
    }
}

/// The summed file counts of a row sequence.
pub open spec fn sum_files(s: Seq<LocData>) -> int
    decreases s.len(),
{
    if s.len() == 0 {
        0
    } else {
        sum_files(s.drop_last()) + s.last()@.files
    }
}

pub open spec fn sum_blank(s: Seq<LocData>) -> int
    decreases s.len(),
{
    if s.len() == 0 {
        0
    } else {
        sum_blank(s.drop_last()) + s.last()@.blank
    }
}

pub open spec fn sum_comment(s: Seq<LocData>) -> int
    decreases s.len(),
{
    if s.len() == 0 {
        0
    } else {
        sum_comment(s.drop_last()) + s.last()@.comment
    }
}

pub open spec fn sum_code(s: Seq<LocData>) -> int
    decreases s.len(),
{
    if s.len() == 0 {
        0
    } else {
        sum_code(s.drop_last()) + s.last()@.code
    }
}

proof fn lemma_sums_prefix(s: Seq<LocData>, i: int)
    requires
        0 <= i <= s.len(),
    ensures
        0 <= sum_files(s.take(i)) <= sum_files(s),
        0 <= sum_blank(s.take(i)) <= sum_blank(s),
        0 <= sum_comment(s.take(i)) <= sum_comment(s),
        0 <= sum_code(s.take(i)) <= sum_code(s),
    decreases s.len() - i,
{
    if i == s.len() {
        assert(s.take(i) == s);
        lemma_sums_nonneg(s);
    } else {
        lemma_sums_prefix(s, i + 1);
        lemma_sums_nonneg(s.take(i));
        assert(s.take(i + 1).drop_last() =~= s.take(i));
        assert(s.take(i + 1).last() == s[i]);
    }
}

proof fn lemma_sums_nonneg(s: Seq<LocData>)
    ensures
        sum_files(s) >= 0,
        sum_blank(s) >= 0,
        sum_comment(s) >= 0,
        sum_code(s) >= 0,
    decreases s.len(),
{
    if s.len() > 0 {
        lemma_sums_nonneg(s.drop_last());
    }
}

impl Report {
    /// The totals row: all four counts summed over the rows, under the name
    /// `SUM`.
    #[verifier::loop_isolation(false)]
    pub fn totals(&self) -> (t: LocData)
        requires
            sum_files(self.cats@) <= u32::MAX,
            sum_blank(self.cats@) <= u32::MAX,
            sum_comment(self.cats@) <= u32::MAX,
            sum_code(self.cats@) <= u32::MAX,
        ensures
            t@.lang == "SUM"@,
            t@.files == sum_files(self.cats@),
            t@.blank == sum_blank(self.cats@),
            t@.comment == sum_comment(self.cats@),
            t@.code == sum_code(self.cats@),
    {
        let mut t = LocData::of(String::from_str("SUM"));
        let n = self.cats.len();
        let mut i: usize = 0;
        proof {
            assert(self.cats@.take(0) =~= Seq::<LocData>::empty());
        }
        while i < n
            invariant
                0 <= i <= n,
                n == self.cats@.len(),
                t@.lang == "SUM"@,
                t@.files == sum_files(self.cats@.take(i as int)),
                t@.blank == sum_blank(self.cats@.take(i as int)),
                t@.comment == sum_comment(self.cats@.take(i as int)),
                t@.code == sum_code(self.cats@.take(i as int)),
            decreases n - i,
        {
            proof {
                assert(self.cats@.take(i as int + 1).drop_last() =~= self.cats@.take(i as int));
                assert(self.cats@.take(i as int + 1).last() == self.cats@[i as int]);
                lemma_sums_prefix(self.cats@, i as int + 1);
            }
            let rec = &self.cats[i];
            t.files = t.files + rec.files;
            t.blank = t.blank + rec.blank;
            t.comment = t.comment + rec.comment;
            t.code = t.code + rec.code;
            i += 1;
        }
        proof {
            assert(self.cats@.take(n as int) == self.cats@);
        }
        t
    }
}

/// The rounded per-mille share of `code` in `total`: the nearest integer to
/// `code / total * 1000`, halves rounded up.
pub open spec fn permille_of(code: int, total: int) -> int {
    (2000 * code + total) / (2 * total)
}

/// The percentage share of one category's code lines in the grand total, in
/// tenths of a percent: the nearest integer to `code / total * 1000`, halves
/// rounded up.  Shown with one decimal place, this is the table's `%`
/// column.
pub fn permille(code: u32, total: u32) -> (r: u32)
    requires
        total > 0,
        code <= total,
    ensures
        r == permille_of(code as int, total as int),
        r <= 1000,
{
    let num: u64 = 2000u64 * (code as u64) + (total as u64);
    let den: u64 = 2u64 * (total as u64);
    let q: u64 = num / den;
    proof {
        assert(num as int / den as int <= 1000) by (nonlinear_arith)
            requires
                num == 2000 * code + total,
                den == 2 * total,
                0 < total,
                code <= total,
        ;
        assert(num as int / den as int >= 0) by (nonlinear_arith)
            requires
                num >= 0,
                den > 0,
        ;
    }
    q as u32
}

/// The rounding the percentage column performs: the result differs from the
/// exact ratio `1000 * code / total` by at most a half.
pub proof fn lemma_permille_rounds(code: int, total: int)
    requires
        total > 0,
        0 <= code <= total,
    ensures
        2 * total * permille_of(code, total) - total <= 2000 * code <= 2 * total * permille_of(
            code,
            total,
        ) + total,
{
    let r = permille_of(code, total);
    let num = 2000 * code + total;
    let den = 2 * total;
    vstd::arithmetic::div_mod::lemma_fundamental_div_mod(num, den);
    vstd::arithmetic::div_mod::lemma_mod_bound(num, den);
    assert(num == den * r + num % den);
    assert(2 * total * r - total <= 2000 * code <= 2 * total * r + total) by (nonlinear_arith)
        requires
            num == 2000 * code + total,
            den == 2 * total,
            total > 0,
            num == den * r + num % den,
            0 <= num % den < den,
    ;
}

/// A sum of plain integers.
pub open spec fn sum_ints(s: Seq<int>) -> int
    decreases s.len(),
{
    if s.len() == 0 {
        0
    } else {
        sum_ints(s.drop_last()) + s.last()
    }
}

/// The rounded per-mille shares of a list of code counts, summed.
pub open spec fn sum_permille(s: Seq<int>, total: int) -> int
    decreases s.len(),
{
    if s.len() == 0 {
        0
    } else {
        sum_permille(s.drop_last(), total) + permille_of(s.last(), total)
    }
}

proof fn lemma_sum_ints_nonneg(s: Seq<int>)
    requires
        forall|i: int| 0 <= i < s.len() ==> 0 <= #[trigger] s[i],
    ensures
        sum_ints(s) >= 0,
    decreases s.len(),
{
    if s.len() > 0 {
        assert(forall|i: int| 0 <= i < s.drop_last().len() ==> s.drop_last()[i] == s[i]);
        lemma_sum_ints_nonneg(s.drop_last());
    }
}

proof fn lemma_elem_le_sum(s: Seq<int>, i: int)
    requires
        forall|j: int| 0 <= j < s.len() ==> 0 <= #[trigger] s[j],
        0 <= i < s.len(),
    ensures
        s[i] <= sum_ints(s),
    decreases s.len(),
{
    assert(forall|j: int| 0 <= j < s.drop_last().len() ==> s.drop_last()[j] == s[j]);
    if i == s.len() - 1 {
        lemma_sum_ints_nonneg(s.drop_last());
    } else {
        lemma_elem_le_sum(s.drop_last(), i);
    }
}

proof fn lemma_permille_sum_bounds(s: Seq<int>, total: int)
    requires
        total > 0,
        forall|i: int| 0 <= i < s.len() ==> 0 <= #[trigger] s[i] <= total,
    ensures
        2000 * sum_ints(s) - s.len() * total <= 2 * total * sum_permille(s, total),
        2 * total * sum_permille(s, total) <= 2000 * sum_ints(s) + s.len() * total,
    decreases s.len(),
{
    if s.len() == 0 {
    } else {
        let sd = s.drop_last();
        assert(forall|i: int| 0 <= i < sd.len() ==> sd[i] == s[i]);
        lemma_permille_sum_bounds(sd, total);
        let c = s.last();
        assert(0 <= c <= total);
        lemma_permille_rounds(c, total);
        let r = permille_of(c, total);
        assert(2 * total * sum_permille(s, total) == 2 * total * sum_permille(sd, total) + 2
            * total * r) by (nonlinear_arith)
            requires
                sum_permille(s, total) == sum_permille(sd, total) + r,
        ;
        assert(2000 * sum_ints(s) == 2000 * sum_ints(sd) + 2000 * c) by (nonlinear_arith)
            requires
                sum_ints(s) == sum_ints(sd) + c,
        ;
        assert(s.len() * total == sd.len() * total + total) by (nonlinear_arith)
            requires
                s.len() == sd.len() + 1,
        ;
    }
}

/// The printed shares only approximate one hundred percent: over rows whose
/// code counts are the parts of the grand total, the rounded per-mille
/// values sum to 1000 give or take half a unit per row.  Each row rounds on
/// its own; nothing re-normalises the column.
pub proof fn lemma_permille_sum_approx(s: Seq<int>, total: int)
    requires
        total > 0,
        forall|i: int| 0 <= i < s.len() ==> 0 <= #[trigger] s[i],
        sum_ints(s) == total,
    ensures
        -(s.len() as int) <= 2 * (sum_permille(s, total) - 1000) <= s.len() as int,
{
    assert forall|i: int| 0 <= i < s.len() implies 0 <= #[trigger] s[i] <= total by {
        lemma_elem_le_sum(s, i);
    }
    lemma_permille_sum_bounds(s, total);
    let d = sum_permille(s, total) - 1000;
    let n = s.len() as int;
    assert(-(n * total) <= 2 * total * d <= n * total) by (nonlinear_arith)
        requires
            2000 * total - n * total <= 2 * total * (d + 1000),
            2 * total * (d + 1000) <= 2000 * total + n * total,
            total > 0,
    ;
    assert(-n <= 2 * d <= n) by (nonlinear_arith)
        requires
            -(n * total) <= 2 * total * d <= n * total,
            total > 0,
    ;
}

} // verus!
