use vstd::prelude::*;
use crate::counts::opt_string_view;
use crate::counts::CodeInfo;
use vstd::seq_lib::to_multiset_contains;
use vstd::seq_lib::to_multiset_remove;

verus! {

/// The name under which files without an extension are reported when
/// counts are grouped by extension.
pub const MISC_BUCKET: &'static str = "miscellaneous";

/// A pair of counts (lines, blank lines) as integers.
pub type Tally = (int, int);

pub open spec fn tally(c: CodeInfo) -> Tally {
    (c.lines as int, c.blanks as int)
}

pub open spec fn plus(a: Tally, b: Tally) -> Tally {
    (a.0 + b.0, a.1 + b.1)
}

/// What a `Totals` holds: whether counts are grouped by extension, the
/// per-extension buckets in the order their extensions were first seen, the
/// catch-all bucket (files without an extension, or every file when counts
/// are not grouped), and whether the catch-all bucket received any file.
pub struct TotalsView {
    pub aggregate: bool,
    pub buckets: Seq<(Seq<char>, Tally)>,
    pub misc: Tally,
    pub misc_seen: bool,
}

pub open spec fn keys_unique(s: Seq<(Seq<char>, Tally)>) -> bool {
    forall|i: int, j: int| 0 <= i < j < s.len() ==> s[i].0 != s[j].0
}

/// The index of the bucket named `k`, or -1.
pub open spec fn find(s: Seq<(Seq<char>, Tally)>, k: Seq<char>) -> int {
    if exists|i: int| 0 <= i < s.len() && s[i].0 == k {
        choose|i: int| 0 <= i < s.len() && s[i].0 == k
    } else {
        -1
    }
}

impl TotalsView {
    /// The buckets as a map from extension to counts, whatever their order.
    pub open spec fn bucket_map(self) -> Map<Seq<char>, Tally> {
        Map::new(
            |k: Seq<char>| find(self.buckets, k) >= 0,
            |k: Seq<char>| self.buckets[find(self.buckets, k)].1,
        )
    }

    /// Merges the counts of one file, whose extension is `ext`.
    pub open spec fn record(self, ext: Option<Seq<char>>, c: Tally) -> TotalsView {
        if self.aggregate && ext is Some {
            let k = ext->0;
            let i = find(self.buckets, k);
            if i >= 0 {
                TotalsView { buckets: self.buckets.update(i, (k, plus(self.buckets[i].1, c))), ..self }
            } else {
                TotalsView { buckets: self.buckets.push((k, c)), ..self }
            }
        } else {
            TotalsView { misc: plus(self.misc, c), misc_seen: true, ..self }
        }
    }

    /// The buckets to report, in order: each per-extension bucket, then the
    /// catch-all one under `MISC_BUCKET` if it received a file; or, when counts
    /// are not grouped, the catch-all bucket alone, unnamed.
    pub open spec fn report(self) -> Seq<(Option<Seq<char>>, Tally)> {
        if self.aggregate {
            let named = self.buckets.map_values(|b: (Seq<char>, Tally)| (Some(b.0), b.1));
            if self.misc_seen {
                named.push((Some(MISC_BUCKET@), self.misc))
            } else {
                named
            }
        } else {
            seq![(None, self.misc)]
        }
    }
}

pub struct Bucket {
    pub ext: String,
    pub info: CodeInfo,
}

/// Line counts merged from many files, grouped by extension or not.
pub struct Totals {
    aggregate: bool,
    buckets: Vec<Bucket>,
    misc: CodeInfo,
    misc_seen: bool,
    grand: CodeInfo,
}

pub open spec fn bucket_sum(s: Seq<(Seq<char>, Tally)>) -> Tally
    decreases s.len(),
{
    if s.len() == 0 {
        (0, 0)
    } else {
        plus(bucket_sum(s.drop_last()), s.last().1)
    }
}

proof fn lemma_bucket_sum_update(s: Seq<(Seq<char>, Tally)>, i: int, b: (Seq<char>, Tally))
    requires
        0 <= i < s.len(),
    ensures
        bucket_sum(s.update(i, b)) == (bucket_sum(s).0 - s[i].1.0 + b.1.0, bucket_sum(s).1 - s[i].1.1 + b.1.1),
    decreases s.len(),
{
    let u = s.update(i, b);
    if i == s.len() - 1 {
        assert(u.drop_last() =~= s.drop_last());
    } else {
        lemma_bucket_sum_update(s.drop_last(), i, b);
        assert(u.drop_last() =~= s.drop_last().update(i, b));
    }
}

proof fn lemma_bucket_sum_push(s: Seq<(Seq<char>, Tally)>, b: (Seq<char>, Tally))
    ensures
        bucket_sum(s.push(b)) == plus(bucket_sum(s), b.1),
{
    assert(s.push(b).drop_last() =~= s);
}

/// With no negative counts, each bucket is at most the sum of all.
proof fn lemma_bucket_le_sum(s: Seq<(Seq<char>, Tally)>, i: int)
    requires
        0 <= i < s.len(),
        forall|j: int| 0 <= j < s.len() ==> (#[trigger] s[j]).1.0 >= 0 && s[j].1.1 >= 0,
    ensures
        s[i].1.0 <= bucket_sum(s).0,
        bucket_sum(s).0 >= 0,
        bucket_sum(s).1 >= 0,
    decreases s.len(),
{
    lemma_bucket_sum_nonneg(s.drop_last());
    if i < s.len() - 1 {
        let d = s.drop_last();
        assert forall|j: int| 0 <= j < d.len() implies (#[trigger] d[j]).1.0 >= 0 && d[j].1.1 >= 0 by {
            assert(d[j] == s[j]);
        }
        lemma_bucket_le_sum(d, i);
    }
}

proof fn lemma_bucket_sum_nonneg(s: Seq<(Seq<char>, Tally)>)
    requires
        forall|j: int| 0 <= j < s.len() ==> (#[trigger] s[j]).1.0 >= 0 && s[j].1.1 >= 0,
    ensures
        bucket_sum(s).0 >= 0,
        bucket_sum(s).1 >= 0,
    decreases s.len(),
{
    if s.len() > 0 {
        let d = s.drop_last();
        assert forall|j: int| 0 <= j < d.len() implies (#[trigger] d[j]).1.0 >= 0 && d[j].1.1 >= 0 by {
            assert(d[j] == s[j]);
        }
        lemma_bucket_sum_nonneg(d);
    }
}

impl View for Totals {
    type V = TotalsView;

    closed spec fn view(&self) -> TotalsView {
        TotalsView {
            aggregate: self.aggregate,
            buckets: self.buckets@.map_values(|b: Bucket| (b.ext@, tally(b.info))),
            misc: tally(self.misc),
            misc_seen: self.misc_seen,
        }
    }
}

impl Totals {
    pub closed spec fn wf(&self) -> bool {
        &&& keys_unique(self@.buckets)
        &&& tally(self.grand) == self@.grand_total()
        &&& self.grand.wf()
        &&& self.misc.wf()
        &&& forall|i: int| 0 <= i < self.buckets@.len() ==> (#[trigger] self.buckets@[i]).info.wf()
        &&& !self.aggregate ==> self.buckets@.len() == 0
    }

    /// No file recorded yet.
    pub fn new(aggregate: bool) -> (r: Totals)
        ensures
            r.wf(),
            r@.aggregate == aggregate,
            r@.buckets == Seq::<(Seq<char>, Tally)>::empty(),
            r@.misc == (0int, 0int),
            !r@.misc_seen,
    {
        let r = Totals {
            aggregate,
            buckets: Vec::new(),
            misc: CodeInfo::new(),
            misc_seen: false,
            grand: CodeInfo::new(),
        };
        assert(r@.buckets =~= Seq::<(Seq<char>, Tally)>::empty());
        r
    }

    /// The sum of every bucket.
    pub fn total(&self) -> (r: CodeInfo)
        requires
            self.wf(),
        ensures
            tally(r) == self@.grand_total(),
            r.wf(),
    {
        self.grand
    }

    /// Whether the counts of a file with `info` can be merged without a
    /// counter passing `u64::MAX`.
    pub open spec fn can_record(&self, info: CodeInfo) -> bool {
        self@.grand_total().0 + info.lines <= u64::MAX
    }

    /// Tests `can_record`.
    pub fn fits(&self, info: CodeInfo) -> (r: bool)
        requires
            self.wf(),
        ensures
            r == self.can_record(info),
    {
        info.lines <= u64::MAX - self.grand.lines
    }

    /// Merges the counts `info` of one file whose extension is `ext`: into the
    /// bucket of that extension when counts are grouped and there is one
    /// (a new bucket starts at zero), else into the catch-all bucket.
    pub fn record(&mut self, ext: Option<String>, info: CodeInfo)
        requires
            old(self).wf(),
            info.wf(),
            old(self).can_record(info),
        ensures
            final(self).wf(),
            final(self)@ == old(self)@.record(opt_string_view(ext), tally(info)),
            final(self)@.grand_total() == plus(old(self)@.grand_total(), tally(info)),
    {
        let ghost old_view = self@;
        let ghost bs = self@.buckets;
        assert(bs.len() == self.buckets@.len());
        proof {
            assert forall|j: int| 0 <= j < bs.len() implies (#[trigger] bs[j]).1.0 >= 0 && bs[j].1.1 >= 0 by {}
            lemma_bucket_sum_nonneg(bs);
        }
        if self.aggregate && ext.is_some() {
            let e = ext.unwrap();
            let n = self.buckets.len();
            let mut i: usize = 0;
            while i < n
                invariant
                    n == self.buckets@.len(),
                    self@ == old_view,
                    bs == old_view.buckets,
                    bs.len() == n,
                    i <= n,
                    forall|j: int| 0 <= j < i ==> (#[trigger] bs[j]).0 != e@,
                ensures
                    i <= n,
                    forall|j: int| 0 <= j < i ==> (#[trigger] bs[j]).0 != e@,
                    i < n ==> bs[i as int].0 == e@,
                decreases n - i,
            {
                assert(bs[i as int].0 == self.buckets@[i as int].ext@);
                if self.buckets[i].ext == e {
                    break;
                }
                i = i + 1;
            }
            let found = i < n;
            if found {
                assert(find(bs, e@) == i) by {
                    assert(0 <= i < bs.len() && bs[i as int].0 == e@);
                    let c = find(bs, e@);
                    assert(0 <= c < bs.len() && bs[c].0 == e@);
                }
                proof {
                    lemma_bucket_le_sum(bs, i as int);
                }
                let mut b = self.buckets[i].info;
                b.add(info);
                self.buckets.set(i, Bucket { ext: e, info: b });
                proof {
                    lemma_bucket_sum_update(bs, i as int, (e@, tally(b)));
                }
                assert(self@.buckets =~= bs.update(i as int, (e@, plus(bs[i as int].1, tally(info)))));
            } else {
                assert(find(bs, e@) == -1);
                let ghost eview = e@;
                self.buckets.push(Bucket { ext: e, info });
                proof {
                    lemma_bucket_sum_push(bs, (eview, tally(info)));
                }
                assert(self@.buckets =~= bs.push((eview, tally(info))));
            }
        } else {
            self.misc.add(info);
            self.misc_seen = true;
        }
        self.grand.add(info);
    }
    /// The buckets to report, as `TotalsView::report` orders and names them.
    pub fn report(&self) -> (r: Vec<(Option<String>, CodeInfo)>)
        requires
            self.wf(),
        ensures
            r@.map_values(|x: (Option<String>, CodeInfo)| (opt_string_view(x.0), tally(x.1))) == self@.report(),
            forall|i: int| 0 <= i < r@.len() ==> (#[trigger] r@[i]).1.wf(),
    {
        let mut r: Vec<(Option<String>, CodeInfo)> = Vec::new();
        if !self.aggregate {
            r.push((None, self.misc));
            assert(r@.map_values(|x: (Option<String>, CodeInfo)| (opt_string_view(x.0), tally(x.1))) =~= self@.report());
            return r;
        }
        let ghost named = self@.buckets.map_values(|b: (Seq<char>, Tally)| (Some(b.0), b.1));
        let n = self.buckets.len();
        let mut i: usize = 0;
        while i < n
            invariant
                n == self.buckets@.len(),
                named.len() == n,
                self.wf(),
                named == self@.buckets.map_values(|b: (Seq<char>, Tally)| (Some(b.0), b.1)),
                i <= n,
                r@.len() == i,
                r@.map_values(|x: (Option<String>, CodeInfo)| (opt_string_view(x.0), tally(x.1)))
                    =~= named.subrange(0, i as int),
                forall|j: int| 0 <= j < r@.len() ==> (#[trigger] r@[j]).1.wf(),
            decreases n - i,
        {
            let b = &self.buckets[i];
            assert(self@.buckets[i as int] == (b.ext@, tally(b.info)));
            assert(named[i as int] == (Some(b.ext@), tally(b.info)));
            r.push((Some(b.ext.clone()), b.info));
            assert(r@[i as int].1 == b.info);
            assert(opt_string_view(r@[i as int].0) == Some(b.ext@));
            assert(r@.map_values(|x: (Option<String>, CodeInfo)| (opt_string_view(x.0), tally(x.1)))
                =~= named.subrange(0, i + 1));
            i = i + 1;
        }
        assert(named.subrange(0, n as int) =~= named);
        if self.misc_seen {
            r.push((Some(MISC_BUCKET.to_owned()), self.misc));
            assert(r@.map_values(|x: (Option<String>, CodeInfo)| (opt_string_view(x.0), tally(x.1))) =~= self@.report());
        }
        r
    }
}


proof fn lemma_find_unique(s: Seq<(Seq<char>, Tally)>, k: Seq<char>)
    requires
        keys_unique(s),
    ensures
        -1 <= find(s, k) < s.len(),
        find(s, k) >= 0 ==> s[find(s, k)].0 == k,
        forall|i: int| 0 <= i < s.len() && s[i].0 == k ==> find(s, k) == i,
{
}

impl TotalsView {
    pub open spec fn empty(aggregate: bool) -> TotalsView {
        TotalsView { aggregate, buckets: Seq::empty(), misc: (0, 0), misc_seen: false }
    }

    /// Merges the counts of each file in turn.
    pub open spec fn record_all(self, files: Seq<(Option<Seq<char>>, Tally)>) -> TotalsView
        decreases files.len(),
    {
        if files.len() == 0 {
            self
        } else {
            self.record_all(files.drop_last()).record(files.last().0, files.last().1)
        }
    }

    /// The sum of every bucket, the catch-all one included.
    pub open spec fn grand_total(self) -> Tally {
        plus(bucket_sum(self.buckets), self.misc)
    }

    /// The counts that `record` would merge into the bucket named `k`.
    pub open spec fn map_record(m: Map<Seq<char>, Tally>, k: Seq<char>, c: Tally) -> Map<Seq<char>, Tally> {
        m.insert(k, plus(if m.contains_key(k) { m[k] } else { (0, 0) }, c))
    }
}

proof fn lemma_record_map(v: TotalsView, e: Option<Seq<char>>, c: Tally)
    requires
        keys_unique(v.buckets),
    ensures
        keys_unique(v.record(e, c).buckets),
        v.record(e, c).bucket_map() == if v.aggregate && e is Some {
            TotalsView::map_record(v.bucket_map(), e->0, c)
        } else {
            v.bucket_map()
        },
{
    let s = v.buckets;
    let w = v.record(e, c);
    let t = w.buckets;
    lemma_find_unique(s, e.unwrap_or(Seq::empty()));
    if v.aggregate && e is Some {
        let k = e->0;
        lemma_find_unique(s, k);
        let i = find(s, k);
        if i >= 0 {
            assert(t == s.update(i, (k, plus(s[i].1, c))));
        } else {
            assert(t == s.push((k, c)));
        }
        assert(keys_unique(t));
        let m = TotalsView::map_record(v.bucket_map(), k, c);
        assert forall|j: int| 0 <= j < s.len() implies #[trigger] t[j].0 == s[j].0 by {}
        assert(find(t, k) >= 0 && t[find(t, k)].1 == plus(if v.bucket_map().contains_key(k) {
            v.bucket_map()[k]
        } else {
            (0, 0)
        }, c)) by {
            lemma_find_unique(t, k);
            if i >= 0 {
                assert(t[i].0 == k);
            } else {
                assert(t[s.len() as int].0 == k);
            }
        }
        assert forall|q: Seq<char>| #[trigger] m.contains_key(q) == w.bucket_map().contains_key(q)
            && (m.contains_key(q) ==> m[q] == w.bucket_map()[q]) by {
            lemma_find_unique(s, q);
            lemma_find_unique(t, q);
            if q != k {
                let fs = find(s, q);
                if fs >= 0 {
                    assert(t[fs] == s[fs]);
                    assert(find(t, q) == fs);
                } else {
                    if find(t, q) >= 0 {
                        let ft = find(t, q);
                        if ft < s.len() {
                            assert(s[ft].0 == q);
                        }
                    }
                    assert(find(t, q) == -1);
                }
            }
        }
        assert(m =~= w.bucket_map());
    } else {
        assert(t == s);
        assert(w.bucket_map() =~= v.bucket_map());
    }
}

/// Merging two files' counts in one order or the other leaves the same
/// counts in every bucket: which worker merges first changes nothing but the
/// order in which extensions were first seen.
pub proof fn lemma_record_commutes(
    v: TotalsView,
    e1: Option<Seq<char>>,
    c1: Tally,
    e2: Option<Seq<char>>,
    c2: Tally,
)
    requires
        keys_unique(v.buckets),
    ensures
        ({
            let a = v.record(e1, c1).record(e2, c2);
            let b = v.record(e2, c2).record(e1, c1);
            &&& a.aggregate == b.aggregate
            &&& a.bucket_map() == b.bucket_map()
            &&& a.misc == b.misc
            &&& a.misc_seen == b.misc_seen
        }),
{
    lemma_record_map(v, e1, c1);
    lemma_record_map(v, e2, c2);
    lemma_record_map(v.record(e1, c1), e2, c2);
    lemma_record_map(v.record(e2, c2), e1, c1);
    let a = v.record(e1, c1).record(e2, c2);
    let b = v.record(e2, c2).record(e1, c1);
    assert(a.bucket_map() =~= b.bucket_map());
}

proof fn lemma_record_grand(v: TotalsView, e: Option<Seq<char>>, c: Tally)
    ensures
        v.record(e, c).grand_total() == plus(v.grand_total(), c),
        !v.aggregate ==> v.record(e, c).buckets == v.buckets,
{
    let s = v.buckets;
    if v.aggregate && e is Some {
        let k = e->0;
        let i = find(s, k);
        if i >= 0 {
            lemma_bucket_sum_update(s, i, (k, plus(s[i].1, c)));
        } else {
            lemma_bucket_sum_push(s, (k, c));
        }
    }
}

/// The sum of the counts of `files`.
pub open spec fn files_total(files: Seq<(Option<Seq<char>>, Tally)>) -> Tally
    decreases files.len(),
{
    if files.len() == 0 {
        (0, 0)
    } else {
        plus(files_total(files.drop_last()), files.last().1)
    }
}

proof fn lemma_record_all_grand(v: TotalsView, files: Seq<(Option<Seq<char>>, Tally)>)
    ensures
        v.record_all(files).grand_total() == plus(v.grand_total(), files_total(files)),
        v.record_all(files).aggregate == v.aggregate,
        !v.aggregate ==> v.record_all(files).buckets == v.buckets,
    decreases files.len(),
{
    if files.len() > 0 {
        let d = files.drop_last();
        lemma_record_all_grand(v, d);
        lemma_record_grand(v.record_all(d), files.last().0, files.last().1);
    }
}

/// Counting the same files with and without grouping by extension gives one
/// bucket whose counts are the sum of all the buckets that grouping gives.
pub proof fn lemma_aggregation_equivalence(files: Seq<(Option<Seq<char>>, Tally)>)
    ensures
        ({
            let on = TotalsView::empty(true).record_all(files);
            let off = TotalsView::empty(false).record_all(files);
            &&& off.buckets.len() == 0
            &&& off.misc == on.grand_total()
        }),
{
    lemma_record_all_grand(TotalsView::empty(true), files);
    lemma_record_all_grand(TotalsView::empty(false), files);
    assert(bucket_sum(Seq::<(Seq<char>, Tally)>::empty()) == (0int, 0int));
}


impl TotalsView {
    /// The same counts in every bucket, whatever the order of the buckets.
    pub open spec fn same_counts(self, o: TotalsView) -> bool {
        &&& self.aggregate == o.aggregate
        &&& self.bucket_map() == o.bucket_map()
        &&& self.misc == o.misc
        &&& self.misc_seen == o.misc_seen
    }
}

proof fn lemma_record_congruent(v: TotalsView, w: TotalsView, e: Option<Seq<char>>, c: Tally)
    requires
        keys_unique(v.buckets),
        keys_unique(w.buckets),
        v.same_counts(w),
    ensures
        v.record(e, c).same_counts(w.record(e, c)),
{
    lemma_record_map(v, e, c);
    lemma_record_map(w, e, c);
}

proof fn lemma_record_all_unique(v: TotalsView, files: Seq<(Option<Seq<char>>, Tally)>)
    requires
        keys_unique(v.buckets),
    ensures
        keys_unique(v.record_all(files).buckets),
    decreases files.len(),
{
    if files.len() > 0 {
        lemma_record_all_unique(v, files.drop_last());
        lemma_record_map(v.record_all(files.drop_last()), files.last().0, files.last().1);
    }
}

/// Merging `g[j]` last gives the same counts as merging `g` in order.
proof fn lemma_move_last(v: TotalsView, g: Seq<(Option<Seq<char>>, Tally)>, j: int)
    requires
        keys_unique(v.buckets),
        0 <= j < g.len(),
    ensures
        v.record_all(g).same_counts(v.record_all(g.remove(j)).record(g[j].0, g[j].1)),
    decreases g.len(),
{
    let d = g.drop_last();
    if j == g.len() - 1 {
        assert(g.remove(j) =~= d);
    } else {
        let x = g[j];
        let l = g.last();
        lemma_move_last(v, d, j);
        assert(d[j] == x);
        let r = v.record_all(d.remove(j));
        assert(g.remove(j) =~= d.remove(j).push(l));
        assert(g.remove(j).drop_last() =~= d.remove(j));
        lemma_record_all_unique(v, d);
        lemma_record_all_unique(v, d.remove(j));
        lemma_record_map(r, x.0, x.1);
        lemma_record_congruent(v.record_all(d), r.record(x.0, x.1), l.0, l.1);
        lemma_record_commutes(r, x.0, x.1, l.0, l.1);
    }
}

/// Merging the same files in any order gives the same counts in every bucket:
/// however the workers interleave, the totals do not change.
pub proof fn lemma_any_order(
    v: TotalsView,
    files: Seq<(Option<Seq<char>>, Tally)>,
    other: Seq<(Option<Seq<char>>, Tally)>,
)
    requires
        keys_unique(v.buckets),
        files.to_multiset() == other.to_multiset(),
    ensures
        v.record_all(files).same_counts(v.record_all(other)),
    decreases files.len(),
{
    vstd::seq_lib::to_multiset_len(files);
    vstd::seq_lib::to_multiset_len(other);
    if files.len() > 0 {
        let x = files.last();
        let d = files.drop_last();
        to_multiset_remove(files, files.len() - 1);
        assert(files.remove(files.len() - 1) =~= d);
        to_multiset_contains(files, x);
        to_multiset_contains(other, x);
        assert(files.contains(x)) by {
            assert(files[files.len() - 1] == x);
        }
        let j = choose|j: int| 0 <= j < other.len() && other[j] == x;
        to_multiset_remove(other, j);
        lemma_any_order(v, d, other.remove(j));
        lemma_move_last(v, other, j);
        lemma_record_all_unique(v, d);
        lemma_record_all_unique(v, other.remove(j));
        lemma_record_congruent(v.record_all(d), v.record_all(other.remove(j)), x.0, x.1);
        lemma_record_all_unique(v, other);
    } else {
        assert(other.len() == 0);
    }
}

} // verus!
