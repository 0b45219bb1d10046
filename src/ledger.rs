use std::collections::BTreeSet;
use vstd::prelude::*;
use vstd::std_specs::cmp::OrdSpec;
use vstd::std_specs::iter::IteratorSpec;

verus! {

broadcast use vstd::std_specs::btree::group_btree_axioms, vstd::laws_cmp::group_laws_cmp;

/// The distinct sequence numbers that one endpoint has observed.
pub struct RecvLog {
    label: String,
    received: BTreeSet<u32>,
}

/// What a ledger reports after each recorded number.
#[derive(Debug, Clone, PartialEq, Eq)]
pub struct LedgerSummary {
    pub label: String,
    pub min: u32,
    pub max: u32,
    pub total: usize,
    pub ranges: String,
}

/// The decimal digit `d`, as a character.
pub open spec fn digit(d: nat) -> char {
    ((d + 48) as u8) as char
}

/// The decimal notation of `n`, without sign or leading zeros.
pub open spec fn decimal(n: nat) -> Seq<char>
    decreases n,
{
    if n < 10 {
        seq![digit(n)]
    } else {
        decimal(n / 10).push(digit(n % 10))
    }
}

/// One run as text: `"7"` for a run of one number, `"7-9"` for a longer one.
pub open spec fn run_text(r: (u32, u32)) -> Seq<char> {
    if r.0 == r.1 {
        decimal(r.0 as nat)
    } else {
        decimal(r.0 as nat) + seq!['-'] + decimal(r.1 as nat)
    }
}

/// The runs as text, in order, separated by `", "`.
pub open spec fn runs_text(rs: Seq<(u32, u32)>) -> Seq<char>
    decreases rs.len(),
{
    if rs.len() == 0 {
        Seq::empty()
    } else if rs.len() == 1 {
        run_text(rs[0])
    } else {
        runs_text(rs.drop_last()) + seq![',', ' '] + run_text(rs.last())
    }
}

/// The ranges text of a set of numbers: its maximal runs, rendered.
pub open spec fn ranges_text(s: Set<u32>) -> Seq<char> {
    runs_text(maximal_runs(s))
}

/// The least number of `s`, or 0 where `s` is empty.
pub open spec fn least(s: Set<u32>) -> u32 {
    if s.len() == 0 {
        0
    } else {
        choose|m: u32| s.contains(m) && forall|x: u32| s.contains(x) ==> m <= x
    }
}

/// The greatest number of `s`, or 0 where `s` is empty.
pub open spec fn greatest(s: Set<u32>) -> u32 {
    if s.len() == 0 {
        0
    } else {
        choose|m: u32| s.contains(m) && forall|x: u32| s.contains(x) ==> x <= m
    }
}

/// `r` is the summary of a ledger named `label` that has seen the numbers `s`.
pub open spec fn summarizes(r: LedgerSummary, label: Seq<char>, s: Set<u32>) -> bool {
    &&& r.label@ == label
    &&& r.min == least(s)
    &&& r.max == greatest(s)
    &&& r.total == s.len()
    &&& r.ranges@ == ranges_text(s)
}

/// Recording a number a second time changes nothing: the seen numbers, and with them
/// every part of the summary, are what recording it once gave.
pub proof fn lemma_record_idempotent(s: Set<u32>, n: u32)
    ensures
        s.insert(n).insert(n) == s.insert(n),
        least(s.insert(n).insert(n)) == least(s.insert(n)),
        greatest(s.insert(n).insert(n)) == greatest(s.insert(n)),
        s.insert(n).insert(n).len() == s.insert(n).len(),
        ranges_text(s.insert(n).insert(n)) == ranges_text(s.insert(n)),
{
    assert(s.insert(n).insert(n) =~= s.insert(n));
}

/// Relies on `ToString` for `u32` (through `Display`): the decimal notation of the number.
#[verifier::external_body]
fn decimal_text(n: u32) -> (r: String)
    ensures
        r@ == decimal(n as nat),
{
    n.to_string()
}

/// Renders the runs as text, in order, separated by `", "`.
fn render_runs(rs: &Vec<(u32, u32)>) -> (out: String)
    ensures
        out@ == runs_text(rs@),
{
    let mut out = String::new();
    let mut i: usize = 0;
    while i < rs.len()
        invariant
            i <= rs@.len(),
            out@ == runs_text(rs@.take(i as int)),
        decreases rs@.len() - i,
    {
        proof {
            reveal_strlit(", ");
            reveal_strlit("-");
        }
        if i > 0 {
            out.append(", ");
        }
        let (a, b) = rs[i];
        let first = decimal_text(a);
        out.append(first.as_str());
        if a != b {
            out.append("-");
            let second = decimal_text(b);
            out.append(second.as_str());
        }
        proof {
            let t = rs@.take(i + 1);
            assert(t.drop_last() =~= rs@.take(i as int));
            assert(t.last() == rs@[i as int]);
            if i == 0 {
                assert(t.len() == 1);
            }
        }
        i = i + 1;
    }
    assert(rs@.take(rs@.len() as int) =~= rs@);
    out
}

/// A sequence of numbers in strictly ascending order.
spec fn ascending(s: Seq<u32>) -> bool {
    forall|i: int, j: int| 0 <= i < j < s.len() ==> s[i] < s[j]
}

/// Runs `(start, end)` with `start <= end`, ascending, any two of them apart by a gap of at
/// least one missing number: no two runs could be joined into one.
pub open spec fn separated_runs(rs: Seq<(u32, u32)>) -> bool {
    &&& forall|i: int| 0 <= i < rs.len() ==> rs[i].0 <= rs[i].1
    &&& forall|i: int, j: int| 0 <= i < j < rs.len() ==> rs[i].1 + 1 < rs[j].0
}

/// `x` lies inside one of the runs.
pub open spec fn in_runs(rs: Seq<(u32, u32)>, x: int) -> bool {
    exists|i: int| 0 <= i < rs.len() && #[trigger] rs[i].0 <= x <= rs[i].1
}

/// The runs hold exactly the numbers of `s`.
pub open spec fn runs_cover(rs: Seq<(u32, u32)>, s: Set<u32>) -> bool {
    forall|x: u32| s.contains(x) <==> in_runs(rs, x as int)
}

/// The maximal runs of the numbers in `s`, ascending.
pub open spec fn maximal_runs(s: Set<u32>) -> Seq<(u32, u32)> {
    choose|rs: Seq<(u32, u32)>| separated_runs(rs) && runs_cover(rs, s)
}

proof fn lemma_runs_start(a: Seq<(u32, u32)>, x: int)
    requires
        separated_runs(a),
        in_runs(a, x),
    ensures
        a[0].0 <= x,
{
    let i = choose|i: int| 0 <= i < a.len() && #[trigger] a[i].0 <= x <= a[i].1;
    if i > 0 {
        assert(a[0].1 + 1 < a[i].0);
    }
}

proof fn lemma_runs_tail(a: Seq<(u32, u32)>, x: int)
    requires
        separated_runs(a),
        a.len() > 0,
    ensures
        separated_runs(a.drop_first()),
        in_runs(a.drop_first(), x) <==> (in_runs(a, x) && x > a[0].1),
{
    let t = a.drop_first();
    assert forall|i: int, j: int| 0 <= i < j < t.len() implies t[i].1 + 1 < t[j].0 by {
        assert(t[i] == a[i + 1] && t[j] == a[j + 1]);
    }
    if in_runs(t, x) {
        let i = choose|i: int| 0 <= i < t.len() && #[trigger] t[i].0 <= x <= t[i].1;
        assert(t[i] == a[i + 1]);
        assert(a[0].1 + 1 < a[i + 1].0);
        assert(in_runs(a, x));
    }
    if in_runs(a, x) && x > a[0].1 {
        let i = choose|i: int| 0 <= i < a.len() && #[trigger] a[i].0 <= x <= a[i].1;
        assert(i > 0);
        assert(t[i - 1] == a[i]);
        assert(in_runs(t, x));
    }
}

/// Two sequences of separated runs that hold the same numbers are the same sequence.
pub proof fn lemma_runs_unique(a: Seq<(u32, u32)>, b: Seq<(u32, u32)>)
    requires
        separated_runs(a),
        separated_runs(b),
        forall|x: int| in_runs(a, x) <==> in_runs(b, x),
    ensures
        a == b,
    decreases a.len(),
{
    if a.len() == 0 {
        if b.len() > 0 {
            assert(b[0].0 <= b[0].0 <= b[0].1);
            assert(in_runs(b, b[0].0 as int));
        }
        assert(a =~= b);
    } else if b.len() == 0 {
        assert(a[0].0 <= a[0].0 <= a[0].1);
        assert(in_runs(a, a[0].0 as int));
    } else {
        assert(a[0].0 <= a[0].0 <= a[0].1);
        assert(b[0].0 <= b[0].0 <= b[0].1);
        assert(in_runs(a, a[0].0 as int));
        assert(in_runs(b, b[0].0 as int));
        lemma_runs_start(a, b[0].0 as int);
        lemma_runs_start(b, a[0].0 as int);
        if a[0].1 < b[0].1 {
            let x = a[0].1 + 1;
            assert(b[0].0 <= x <= b[0].1);
            assert(in_runs(b, x));
            let i = choose|i: int| 0 <= i < a.len() && #[trigger] a[i].0 <= x <= a[i].1;
            if i > 0 {
                assert(a[0].1 + 1 < a[i].0);
            }
        }
        if b[0].1 < a[0].1 {
            let x = b[0].1 + 1;
            assert(a[0].0 <= x <= a[0].1);
            assert(in_runs(a, x));
            let i = choose|i: int| 0 <= i < b.len() && #[trigger] b[i].0 <= x <= b[i].1;
            if i > 0 {
                assert(b[0].1 + 1 < b[i].0);
            }
        }
        assert(a[0] == b[0]);
        assert forall|x: int| in_runs(a.drop_first(), x) <==> in_runs(b.drop_first(), x) by {
            lemma_runs_tail(a, x);
            lemma_runs_tail(b, x);
        }
        lemma_runs_tail(a, 0);
        lemma_runs_tail(b, 0);
        lemma_runs_unique(a.drop_first(), b.drop_first());
        assert(a =~= seq![a[0]] + a.drop_first());
        assert(b =~= seq![b[0]] + b.drop_first());
    }
}

/// Intervals `(start, end)`, each with `start <= end`, in any order, that together hold
/// exactly the numbers of `s`.
pub open spec fn intervals_cover(iv: Seq<(u32, u32)>, s: Set<u32>) -> bool {
    &&& forall|i: int| 0 <= i < iv.len() ==> iv[i].0 <= iv[i].1
    &&& runs_cover(iv, s)
}

/// The index of an interval that holds `x`.
spec fn holder(iv: Seq<(u32, u32)>, x: int) -> int {
    choose|j: int| 0 <= j < iv.len() && #[trigger] iv[j].0 <= x <= iv[j].1
}

/// Fewest tokens: no intervals that hold exactly the numbers of `s` are fewer than its
/// separated runs.
pub proof fn lemma_runs_fewest(rs: Seq<(u32, u32)>, iv: Seq<(u32, u32)>, s: Set<u32>)
    requires
        separated_runs(rs),
        runs_cover(rs, s),
        intervals_cover(iv, s),
    ensures
        rs.len() <= iv.len(),
{
    let f = |i: int| holder(iv, rs[i].0 as int);
    let x = vstd::set_lib::set_int_range(0, rs.len() as int);
    let z = vstd::set_lib::set_int_range(0, iv.len() as int);
    assert forall|i: int| 0 <= i < rs.len() implies 0 <= #[trigger] f(i) < iv.len() && iv[f(i)].0
        <= rs[i].0 <= iv[f(i)].1 by {
        assert(rs[i].0 <= rs[i].0 <= rs[i].1);
        assert(in_runs(rs, rs[i].0 as int));
        assert(s.contains(rs[i].0));
        assert(in_runs(iv, rs[i].0 as int));
    }
    assert forall|a: int, b: int| x.contains(a) && x.contains(b) && #[trigger] f(a) == #[trigger] f(
        b,
    ) implies a == b by {
        if a != b {
            let (lo, hi) = if a < b {
                (a, b)
            } else {
                (b, a)
            };
            let j = f(a);
            let g = rs[lo].1 + 1;
            assert(rs[lo].1 + 1 < rs[hi].0);
            assert(iv[j].0 <= g <= iv[j].1);
            assert(in_runs(iv, g));
            assert(s.contains(g as u32));
            assert(in_runs(rs, g));
            let k = choose|k: int| 0 <= k < rs.len() && #[trigger] rs[k].0 <= g <= rs[k].1;
            if k < lo {
                assert(rs[k].1 + 1 < rs[lo].0);
            } else if k > lo {
                assert(rs[lo].1 + 1 < rs[k].0);
            }
        }
    }
    vstd::set_lib::lemma_int_range(0, rs.len() as int);
    vstd::set_lib::lemma_int_range(0, iv.len() as int);
    let y = x.map(f);
    vstd::set_lib::lemma_map_size(x, y, f);
    assert forall|j: int| y.contains(j) implies z.contains(j) by {
        let i = choose|i: int| x.contains(i) && #[trigger] f(i) == j;
    }
    vstd::set_lib::lemma_len_subset(y, z);
}

/// Runs that hold exactly the numbers of `s` are its maximal runs.
proof fn lemma_maximal_runs(rs: Seq<(u32, u32)>, s: Set<u32>)
    requires
        separated_runs(rs),
        runs_cover(rs, s),
    ensures
        rs == maximal_runs(s),
{
    let c = maximal_runs(s);
    assert forall|x: int| in_runs(rs, x) <==> in_runs(c, x) by {
        if in_runs(rs, x) {
            let i = choose|i: int| 0 <= i < rs.len() && #[trigger] rs[i].0 <= x <= rs[i].1;
            assert(s.contains(x as u32));
        }
        if in_runs(c, x) {
            let i = choose|i: int| 0 <= i < c.len() && #[trigger] c[i].0 <= x <= c[i].1;
            assert(s.contains(x as u32));
        }
    }
    lemma_runs_unique(rs, c);
}

/// `x` stands among the first `n` items of `v`.
spec fn in_prefix(v: Seq<u32>, n: int, x: int) -> bool {
    exists|k: int| 0 <= k < n && #[trigger] v[k] == x
}

/// The maximal runs of consecutive numbers in `v`, an ascending sequence.
fn runs_of_sorted(v: &Vec<u32>) -> (rs: Vec<(u32, u32)>)
    requires
        ascending(v@),
    ensures
        separated_runs(rs@),
        forall|x: int| in_runs(rs@, x) <==> in_prefix(v@, v@.len() as int, x),
{
    let mut rs: Vec<(u32, u32)> = Vec::new();
    let n = v.len();
    if n == 0 {
        return rs;
    }
    let mut start: u32 = v[0];
    let mut prev: u32 = v[0];
    let ghost mut js: int = 0;
    let mut i: usize = 1;
    while i < n
        invariant
            n == v@.len(),
            ascending(v@),
            1 <= i <= n,
            0 <= js < i,
            start == v@[js],
            prev == v@[i - 1],
            forall|k: int| js <= k < i ==> v@[k] == start + (k - js),
            separated_runs(rs@),
            forall|k: int| 0 <= k < rs@.len() ==> rs@[k].1 + 1 < start,
            forall|x: int| in_runs(rs@, x) <==> in_prefix(v@, js, x),
        decreases n - i,
    {
        let x = v[i];
        assert(prev < x);
        if x == prev + 1 {
            prev = x;
        } else {
            let ghost old_rs = rs@;
            rs.push((start, prev));
            proof {
                assert forall|y: int| in_runs(rs@, y) <==> in_prefix(v@, i as int, y) by {
                    if in_runs(rs@, y) {
                        let r = choose|r: int| 0 <= r < rs@.len() && #[trigger] rs@[r].0 <= y <= rs@[r].1;
                        if r < old_rs.len() {
                            assert(rs@[r] == old_rs[r]);
                            assert(in_runs(old_rs, y));
                            assert(in_prefix(v@, js, y));
                            let k = choose|k: int| 0 <= k < js && #[trigger] v@[k] == y;
                            assert(v@[k] == y);
                            assert(in_prefix(v@, i as int, y));
                        } else {
                            let k = js + (y - start);
                            assert(v@[k] == y);
                            assert(in_prefix(v@, i as int, y));
                        }
                    }
                    if in_prefix(v@, i as int, y) {
                        let k = choose|k: int| 0 <= k < i && #[trigger] v@[k] == y;
                        if k < js {
                            assert(in_prefix(v@, js, y));
                            assert(in_runs(old_rs, y));
                            let r = choose|r: int|
                                0 <= r < old_rs.len() && #[trigger] old_rs[r].0 <= y <= old_rs[r].1;
                            assert(rs@[r] == old_rs[r]);
                            assert(in_runs(rs@, y));
                        } else {
                            assert(v@[k] == start + (k - js));
                            assert(v@[i - 1] == start + (i - 1 - js));
                            let last = old_rs.len() as int;
                            assert(rs@[last].0 <= y <= rs@[last].1);
                            assert(in_runs(rs@, y));
                        }
                    }
                }
                js = i as int;
            }
            start = x;
            prev = x;
        }
        i = i + 1;
    }
    let ghost old_rs = rs@;
    rs.push((start, prev));
    proof {
        assert forall|y: int| in_runs(rs@, y) <==> in_prefix(v@, n as int, y) by {
            if in_runs(rs@, y) {
                let r = choose|r: int| 0 <= r < rs@.len() && #[trigger] rs@[r].0 <= y <= rs@[r].1;
                if r < old_rs.len() {
                    assert(rs@[r] == old_rs[r]);
                    assert(in_runs(old_rs, y));
                    assert(in_prefix(v@, js, y));
                    let k = choose|k: int| 0 <= k < js && #[trigger] v@[k] == y;
                    assert(v@[k] == y);
                    assert(in_prefix(v@, n as int, y));
                } else {
                    let k = js + (y - start);
                    assert(v@[k] == y);
                    assert(in_prefix(v@, n as int, y));
                }
            }
            if in_prefix(v@, n as int, y) {
                let k = choose|k: int| 0 <= k < n && #[trigger] v@[k] == y;
                if k < js {
                    assert(in_prefix(v@, js, y));
                    assert(in_runs(old_rs, y));
                    let r = choose|r: int|
                        0 <= r < old_rs.len() && #[trigger] old_rs[r].0 <= y <= old_rs[r].1;
                    assert(rs@[r] == old_rs[r]);
                    assert(in_runs(rs@, y));
                } else {
                    assert(v@[k] == start + (k - js));
                    assert(v@[n - 1] == start + (n - 1 - js));
                    let last = old_rs.len() as int;
                    assert(rs@[last].0 <= y <= rs@[last].1);
                    assert(in_runs(rs@, y));
                }
            }
        }
    }
    rs
}

impl RecvLog {
    /// An empty ledger under the given label.
    pub fn new(label: &str) -> (r: RecvLog)
        ensures
            r.name() == label@,
            r.seen() == Set::<u32>::empty(),
    {
        RecvLog { label: label.to_owned(), received: BTreeSet::new() }
    }

    /// Adds `no` to the seen numbers and reports the ledger's summary.
    pub fn record(&mut self, no: u32) -> (r: LedgerSummary)
        ensures
            final(self).seen() == old(self).seen().insert(no),
            final(self).name() == old(self).name(),
            summarizes(r, final(self).name(), final(self).seen()),
    {
        self.received.insert(no);
        self.summary()
    }

    /// The label, the least and greatest number seen (0 where none was), how many
    /// distinct numbers were seen, and the ranges text.
    pub fn summary(&self) -> (r: LedgerSummary)
        ensures
            summarizes(r, self.name(), self.seen()),
    {
        let v = self.sorted();
        let n = v.len();
        let mut min: u32 = 0;
        let mut max: u32 = 0;
        if n > 0 {
            min = v[0];
            max = v[n - 1];
            proof {
                let s = self.seen();
                assert forall|x: u32| s.contains(x) implies min <= x && x <= max by {
                    assert(v@.to_set().contains(x));
                    let k = choose|k: int| 0 <= k < v@.len() && #[trigger] v@[k] == x;
                    if k > 0 {
                        assert(v@[0] < v@[k]);
                    }
                    if k < n - 1 {
                        assert(v@[k] < v@[n - 1]);
                    }
                }
                assert(v@.to_set().contains(v@[0]));
                assert(v@.to_set().contains(v@[n - 1]));
                let lo = least(s);
                let hi = greatest(s);
                assert(lo <= min && min <= lo);
                assert(hi <= max && max <= hi);
            }
        }
        let rs = self.ranges();
        let text = render_runs(&rs);
        let total = self.received.len();
        LedgerSummary { label: self.label.clone(), min, max, total, ranges: text }
    }

    /// The label that names the endpoint this ledger instruments.
    pub fn label(&self) -> (r: &str)
        ensures
            r@ == self.name(),
    {
        self.label.as_str()
    }

    /// Builds the ranges text of the seen numbers: `"1-3, 5, 7-9, 12"`.
    pub fn build_ranges_summary(&self) -> (r: String)
        ensures
            r@ == ranges_text(self.seen()),
    {
        let rs = self.ranges();
        render_runs(&rs)
    }

    /// The label that names the endpoint this ledger instruments.
    pub closed spec fn name(&self) -> Seq<char> {
        self.label@
    }

    /// The set of numbers recorded so far.
    pub closed spec fn seen(&self) -> Set<u32> {
        self.received@
    }

    /// The maximal runs of consecutive recorded numbers, ascending.
    pub fn ranges(&self) -> (rs: Vec<(u32, u32)>)
        ensures
            separated_runs(rs@),
            runs_cover(rs@, self.seen()),
            rs@ == maximal_runs(self.seen()),
    {
        let v = self.sorted();
        let rs = runs_of_sorted(&v);
        proof {
            assert forall|x: u32| self.seen().contains(x) <==> in_runs(rs@, x as int) by {
                if self.seen().contains(x) {
                    assert(v@.to_set().contains(x));
                    let k = choose|k: int| 0 <= k < v@.len() && #[trigger] v@[k] == x;
                    assert(in_prefix(v@, v@.len() as int, x as int));
                }
                if in_runs(rs@, x as int) {
                    assert(in_prefix(v@, v@.len() as int, x as int));
                    let k = choose|k: int| 0 <= k < v@.len() && #[trigger] v@[k] == x;
                    assert(v@.to_set().contains(x));
                }
            }
            lemma_maximal_runs(rs@, self.seen());
        }
        rs
    }

    /// The recorded numbers, in ascending order.
    fn sorted(&self) -> (v: Vec<u32>)
        ensures
            ascending(v@),
            v@.to_set() == self.seen(),
            v@.len() == self.seen().len(),
    {
        let ghost keys = self.received.iter().remaining().unref();
        let mut v: Vec<u32> = Vec::new();
        for x in it: self.received.iter()
            invariant
                it.seq().unref() == keys,
                v@ == keys.take(it.index() as int),
        {
            v.push(*x);
        }
        assert(v@ =~= keys);
        proof {
            let r = self.received.iter().remaining();
            assert(vstd::laws_cmp::obeys_cmp::<&u32>());
            assert(vstd::std_specs::btree::increasing_seq(r));
            assert forall|i: int, j: int| 0 <= i < j < v@.len() implies v@[i] < v@[j] by {
                assert(<&u32 as OrdSpec>::cmp_spec(&r[i], &r[j]) is Less);
            }
        }
        v
    }
}

} // verus!
