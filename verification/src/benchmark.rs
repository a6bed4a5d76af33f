//! Benchmark records, collections of records, and pairwise comparisons.

use vstd::prelude::*;

use crate::text::{dec_str, str_eq, to_decimal, tokenize, tokens_of, views_of};
use crate::utils::{drop_commas_and_parse, fmt_thousands_sep, spec_parse_num, thousands_str};
use vstd::string::StringExecFns;

use crate::pattern::{has_match, replaced, NamePattern};

verus! {

/// The mathematical model of one benchmark record.
#[verifier::ext_equal]
pub ghost struct BenchModel {
    pub name: Seq<char>,
    pub ns: nat,
    pub variance: nat,
    pub throughput: Option<nat>,
}

/// All extractable data from a single micro-benchmark line.
#[derive(Debug, PartialEq)]
pub struct Benchmark {
    pub name: String,
    pub ns: usize,
    pub variance: usize,
    pub throughput: Option<usize>,
}

impl View for Benchmark {
    type V = BenchModel;

    open spec fn view(&self) -> BenchModel {
        BenchModel {
            name: self.name@,
            ns: self.ns as nat,
            variance: self.variance as nat,
            throughput: match self.throughput {
                Some(t) => Some(t as nat),
                None => None,
            },
        }
    }
}

impl Clone for Benchmark {
    fn clone(&self) -> (r: Self)
        ensures
            r == *self,
    {
        Benchmark {
            name: self.name.clone(),
            ns: self.ns,
            variance: self.variance,
            throughput: self.throughput,
        }
    }
}

/// The model of a named collection of records.
#[verifier::ext_equal]
pub ghost struct GroupModel {
    pub name: Seq<char>,
    pub records: Seq<BenchModel>,
}

/// The models of a sequence of records.
pub open spec fn models_of(v: Seq<Benchmark>) -> Seq<BenchModel> {
    v.map_values(|b: Benchmark| b@)
}

/// A collection of `Benchmark`s with a name for the collection.
/// The name is usually the file the `Benchmark`s were read from,
/// or the module they were all in.
#[derive(Debug, PartialEq)]
pub struct Benchmarks {
    pub name: String,
    pub benchmarks: Vec<Benchmark>,
}

impl View for Benchmarks {
    type V = GroupModel;

    open spec fn view(&self) -> GroupModel {
        GroupModel { name: self.name@, records: models_of(self.benchmarks@) }
    }
}

impl Clone for Benchmarks {
    fn clone(&self) -> (r: Self)
        ensures
            r@ == self@,
            r.name == self.name,
            r.benchmarks@ == self.benchmarks@,
    {
        let r = Benchmarks { name: self.name.clone(), benchmarks: self.benchmarks.clone() };
        proof {
            assert forall|i: int|
                0 <= i < self.benchmarks@.len() implies self.benchmarks@[i]
                == r.benchmarks@[i] by {
                assert(cloned::<Benchmark>(self.benchmarks@[i], r.benchmarks@[i]));
            }
            assert(self.benchmarks@ =~= r.benchmarks@);
        }
        r
    }
}

impl Benchmarks {
    /// An empty collection under the given name.
    pub fn new(name: String) -> (r: Self)
        ensures
            r@.name == name@,
            r@.records.len() == 0,
            r.name == name,
            r.benchmarks@.len() == 0,
    {
        let r = Benchmarks { name, benchmarks: Vec::new() };
        proof {
            assert(r@.records =~= Seq::<BenchModel>::empty());
        }
        r
    }
}

/// The variance token: digits and commas immediately followed by `)`.
pub open spec fn variance_tok(t: Seq<char>) -> Option<usize> {
    if t.len() >= 1 && t.last() == ')' {
        spec_parse_num(t.drop_last())
    } else {
        None
    }
}

/// Whether a benchmark line pattern begins at the head of the token
/// sequence:
/// `test <name> <ignored> bench: <ns> ns/iter (+/- <variance>)`.
pub open spec fn head_matches(ts: Seq<Seq<char>>) -> bool {
    &&& ts.len() >= 8
    &&& ts[0] == "test"@
    &&& ts[3] == "bench:"@
    &&& spec_parse_num(ts[4]) is Some
    &&& ts[5] == "ns/iter"@
    &&& ts[6] == "(+/-"@
    &&& variance_tok(ts[7]) is Some
}

/// The optional trailing throughput figure: `= <throughput> MB/s`.
pub open spec fn head_throughput(ts: Seq<Seq<char>>) -> Option<usize> {
    if ts.len() >= 11 && ts[8] == "="@ && spec_parse_num(ts[9]) is Some && ts[10] == "MB/s"@ {
        spec_parse_num(ts[9])
    } else {
        None
    }
}

/// The record carried by a matching head (meaningful when `head_matches`).
pub open spec fn head_record(ts: Seq<Seq<char>>) -> BenchModel {
    BenchModel {
        name: ts[1],
        ns: spec_parse_num(ts[4])->0 as nat,
        variance: variance_tok(ts[7])->0 as nat,
        throughput: match head_throughput(ts) {
            Some(t) => Some(t as nat),
            None => None,
        },
    }
}

/// The first position at which the pattern matches decides the record; a
/// token sequence without a match carries none.
pub open spec fn parse_tokens(ts: Seq<Seq<char>>) -> Option<BenchModel>
    decreases ts.len(),
{
    if ts.len() < 8 {
        None
    } else if head_matches(ts) {
        Some(head_record(ts))
    } else {
        parse_tokens(ts.skip(1))
    }
}

/// The record carried by one line of report text, if any.
pub open spec fn parse_line(s: Seq<char>) -> Option<BenchModel> {
    parse_tokens(tokens_of(s))
}

/// Tries to read the benchmark line pattern anchored at token `i`.
fn match_at(toks: &Vec<String>, i: usize) -> (r: Option<Benchmark>)
    requires
        i < toks@.len(),
        toks@.len() - i >= 8,
        forall|j: int| 0 <= j < toks@.len() ==> #[trigger] toks@[j]@.len() > 0,
    ensures
        r is Some <==> head_matches(views_of(toks@).skip(i as int)),
        r matches Some(b) ==> b@ == head_record(views_of(toks@).skip(i as int)),
{
    let total = toks.len();
    let ghost ts = views_of(toks@).skip(i as int);
    proof {
        assert forall|k: int| 0 <= k < ts.len() implies #[trigger] ts[k] == toks@[i + k]@ by {
            assert(views_of(toks@)[i + k] == toks@[i + k]@);
        }
    }
    if !str_eq(toks[i].as_str(), "test") {
        return None;
    }
    if !str_eq(toks[i + 3].as_str(), "bench:") {
        return None;
    }
    let ns = match drop_commas_and_parse(toks[i + 4].as_str()) {
        Some(v) => v,
        None => {
            return None;
        },
    };
    if !str_eq(toks[i + 5].as_str(), "ns/iter") {
        return None;
    }
    if !str_eq(toks[i + 6].as_str(), "(+/-") {
        return None;
    }
    let vtok = &toks[i + 7];
    proof {
        assert(toks@[i + 7]@.len() > 0);
    }
    let vlen = vtok.as_str().unicode_len();
    if vtok.as_str().get_char(vlen - 1) != ')' {
        return None;
    }
    let vpre = vtok.as_str().substring_char(0, vlen - 1);
    proof {
        assert(vpre@ =~= ts[7].drop_last());
    }
    let variance = match drop_commas_and_parse(vpre) {
        Some(v) => v,
        None => {
            return None;
        },
    };
    let throughput: Option<usize> = if total - i >= 11 {
        if str_eq(toks[i + 8].as_str(), "=") && str_eq(toks[i + 10].as_str(), "MB/s") {
            drop_commas_and_parse(toks[i + 9].as_str())
        } else {
            None
        }
    } else {
        None
    };
    proof {
        match throughput {
            Some(t) => assert(head_throughput(ts) == Some(t)),
            None => assert(head_throughput(ts) is None),
        }
    }
    let b = Benchmark { name: toks[i + 1].clone(), ns, variance, throughput };
    proof {
        assert(head_matches(ts));
        assert(b@ =~= head_record(ts));
    }
    Some(b)
}

impl Benchmark {
    /// Parses a single benchmark line into a `Benchmark`.
    ///
    /// A line is recognized when, at some position in its
    /// whitespace-separated tokens, the pattern
    /// `test <name> <ignored> bench: <ns> ns/iter (+/- <variance>)`
    /// begins, optionally followed by `= <throughput> MB/s`; numeric tokens
    /// may carry commas as thousands separators. Any other line carries no
    /// record.
    pub fn parse(line: String) -> (r: Option<Benchmark>)
        ensures
            r is Some <==> parse_line(line@) is Some,
            r matches Some(b) ==> b@ == parse_line(line@)->0,
    {
        let toks = tokenize(line.as_str());
        let ghost full = views_of(toks@);
        let n = toks.len();
        let mut i: usize = 0;
        proof {
            assert(full.skip(0) =~= full);
        }
        while n - i >= 8
            invariant
                i <= n,
                n == toks@.len(),
                full == views_of(toks@),
                full == tokens_of(line@),
                forall|j: int| 0 <= j < toks@.len() ==> #[trigger] toks@[j]@.len() > 0,
                parse_tokens(full) == parse_tokens(full.skip(i as int)),
            decreases n - i,
        {
            let r = match_at(&toks, i);
            if let Some(b) = r {
                proof {
                    assert(full.skip(i as int).len() >= 8);
                    assert(parse_tokens(full.skip(i as int)) == Some(
                        head_record(full.skip(i as int)),
                    ));
                }
                return Some(b);
            }
            proof {
                assert(full.skip(i as int).skip(1) =~= full.skip(i + 1));
            }
            i += 1;
        }
        proof {
            assert(full.skip(i as int).len() < 8);
            assert(parse_tokens(full.skip(i as int)) is None);
        }
        None
    }
}

/// The model of a comparison between two records.
#[verifier::ext_equal]
pub ghost struct ComparisonModel {
    pub fst: BenchModel,
    pub snd: BenchModel,
    pub diff_ns: int,
}

/// A comparison between an old and a new benchmark.
/// All differences are reported in terms of measuring improvements
/// (negative) or regressions (positive). That is, if an old benchmark
/// is slower than a new benchmark, then the difference is negative.
/// Conversely, if an old benchmark is faster than a new benchmark,
/// then the difference is positive.
#[derive(Debug, PartialEq)]
pub struct Comparison {
    pub fst: Benchmark,
    pub snd: Benchmark,
    pub diff_ns: i128,
}

impl View for Comparison {
    type V = ComparisonModel;

    open spec fn view(&self) -> ComparisonModel {
        ComparisonModel { fst: self.fst@, snd: self.snd@, diff_ns: self.diff_ns as int }
    }
}

impl Comparison {
    /// The stored difference agrees with the two records.
    pub open spec fn wf(&self) -> bool {
        self.diff_ns == self@.snd.ns - self@.fst.ns
    }
}

impl Benchmark {
    /// Compares an old benchmark (`self`) with a new benchmark.
    pub fn compare(self, new: Self) -> (c: Comparison)
        ensures
            c.fst == self,
            c.snd == new,
            c@.diff_ns == new@.ns - self@.ns,
            c.wf(),
    {
        let diff_ns: i128 = new.ns as i128 - self.ns as i128;
        Comparison { fst: self, snd: new, diff_ns }
    }
}

/// The model of a group of same-named records across sources.
#[verifier::ext_equal]
pub ghost struct CmpGroupModel {
    pub bench_name: Seq<char>,
    pub assocs: Seq<(Seq<char>, BenchModel)>,
}

/// The models of a sequence of labelled records.
pub open spec fn assoc_models_of(v: Seq<(String, Benchmark)>) -> Seq<(Seq<char>, BenchModel)> {
    v.map_values(|p: (String, Benchmark)| (p.0@, p.1@))
}

/// A list of benchmarks with the same name, where each benchmark is
/// associated with the file or module from which it came. The name of the
/// benchmark is also available at this struct's level for convenience.
#[derive(Debug, PartialEq)]
pub struct Comparisons {
    pub bench_name: String,
    pub assocs: Vec<(String, Benchmark)>,
}

impl View for Comparisons {
    type V = CmpGroupModel;

    open spec fn view(&self) -> CmpGroupModel {
        CmpGroupModel { bench_name: self.bench_name@, assocs: assoc_models_of(self.assocs@) }
    }
}

impl Comparisons {
    /// Compares the records at the two given columns, the first as the
    /// baseline.
    pub fn compare(&self, i1: usize, i2: usize) -> (c: Comparison)
        requires
            i1 < self.assocs@.len(),
            i2 < self.assocs@.len(),
        ensures
            c@.fst == self@.assocs[i1 as int].1,
            c@.snd == self@.assocs[i2 as int].1,
            c@.diff_ns == self@.assocs[i2 as int].1.ns - self@.assocs[i1 as int].1.ns,
            c.wf(),
    {
        let a = self.assocs[i1].1.clone();
        let b = self.assocs[i2].1.clone();
        a.compare(b)
    }
}

/// A two-digit, zero-padded decimal rendering of `k` (for `k < 100`).
pub open spec fn pad2_str(k: nat) -> Seq<char> {
    seq![crate::text::digit_char((k / 10) as int), crate::text::digit_char((k % 10) as int)]
}

/// The `ns/iter` cell of a record: the time with thousands separators,
/// optionally the variance, and, when present, the throughput.
pub open spec fn fmt_ns_str(m: BenchModel, variance: bool) -> Seq<char> {
    thousands_str(m.ns, ',') + (if variance {
        " (+/- "@ + dec_str(m.variance) + ")"@
    } else {
        Seq::<char>::empty()
    }) + (match m.throughput {
        Some(t) => " ("@ + dec_str(t) + " MB/s)"@,
        None => Seq::<char>::empty(),
    })
}

/// The absolute value.
pub open spec fn abs_of(d: int) -> int {
    if d < 0 {
        -d
    } else {
        d
    }
}

/// The signed difference cell: the absolute difference with thousands
/// separators, with a leading minus sign for an improvement.
pub open spec fn diff_cell_str(diff: int) -> Seq<char> {
    if diff < 0 {
        "-"@ + thousands_str(abs_of(diff) as nat, ',')
    } else {
        thousands_str(diff as nat, ',')
    }
}

/// The relative difference `diff / base` in hundredths of a percent,
/// rounded half away from zero.
pub open spec fn rounded_hundredths(diff: int, base: nat) -> nat
    recommends
        base > 0,
{
    ((20000 * abs_of(diff) + base) / (2 * base as int)) as nat
}

/// The `diff %` cell: the relative difference as a percentage with two
/// decimal places, rounded half away from zero. A zero baseline makes the
/// ratio non-finite; it is rendered literally as `inf%`, `-inf%` or `NaN%`.
pub open spec fn percent_str(diff: int, base: nat) -> Seq<char> {
    if base == 0 {
        if diff > 0 {
            "inf%"@
        } else if diff < 0 {
            "-inf%"@
        } else {
            "NaN%"@
        }
    } else {
        let q = rounded_hundredths(diff, base);
        (if diff < 0 {
            "-"@
        } else {
            Seq::<char>::empty()
        }) + dec_str(q / 100) + "."@ + pad2_str(q % 100) + "%"@
    }
}

/// The truncated absolute percentage of the relative difference, saturated
/// at 255; a non-finite ratio saturates too, except that a zero difference
/// over a zero baseline counts as zero.
pub open spec fn spec_abs_percent(diff: int, base: nat) -> nat {
    if base > 0 {
        if 100 * abs_of(diff) / (base as int) > 255 {
            255
        } else {
            (100 * abs_of(diff) / (base as int)) as nat
        }
    } else if diff == 0 {
        0
    } else {
        255
    }
}

impl Benchmark {
    /// Renders the time cell of this record.
    pub fn fmt_ns(&self, variance: bool) -> (r: String)
        ensures
            r@ == fmt_ns_str(self@, variance),
    {
        let mut res = fmt_thousands_sep(self.ns, ',');
        if variance {
            res.append(" (+/- ");
            let v = to_decimal(self.variance as u128);
            res.append(v.as_str());
            res.append(")");
        }
        if let Some(t) = self.throughput {
            res.append(" (");
            let tp = to_decimal(t as u128);
            res.append(tp.as_str());
            res.append(" MB/s)");
        }
        proof {
            assert(res@ =~= fmt_ns_str(self@, variance));
        }
        res
    }
}

impl Comparison {
    /// The truncated absolute percentage of the relative difference, for
    /// the threshold filter.
    pub fn trunc_abs_percent(&self) -> (p: u8)
        requires
            self.wf(),
        ensures
            p as nat == spec_abs_percent(self@.diff_ns, self@.fst.ns),
    {
        if self.fst.ns == 0 {
            if self.diff_ns == 0 {
                0
            } else {
                255
            }
        } else {
            let a: i128 = if self.diff_ns < 0 {
                -self.diff_ns
            } else {
                self.diff_ns
            };
            let p = 100 * a / (self.fst.ns as i128);
            if p > 255 {
                255
            } else {
                p as u8
            }
        }
    }

    /// Renders the relative difference as a percentage cell.
    pub fn percent_cell(&self) -> (r: String)
        requires
            self.wf(),
        ensures
            r@ == percent_str(self@.diff_ns, self@.fst.ns),
    {
        if self.fst.ns == 0 {
            let mut s = String::new();
            if self.diff_ns > 0 {
                s.append("inf%");
            } else if self.diff_ns < 0 {
                s.append("-inf%");
            } else {
                s.append("NaN%");
            }
            proof {
                assert(s@ =~= percent_str(self@.diff_ns, self@.fst.ns));
            }
            s
        } else {
            let a: i128 = if self.diff_ns < 0 {
                -self.diff_ns
            } else {
                self.diff_ns
            };
            let base = self.fst.ns as i128;
            let q = ((20000 * a + base) / (2 * base)) as u128;
            let mut s = String::new();
            if self.diff_ns < 0 {
                s.append("-");
            }
            let whole = to_decimal(q / 100);
            s.append(whole.as_str());
            s.append(".");
            crate::text::push_char(&mut s, crate::text::digit_to_char(((q % 100) / 10) as u8));
            crate::text::push_char(&mut s, crate::text::digit_to_char((q % 10) as u8));
            s.append("%");
            proof {
                assert(q as nat == rounded_hundredths(self@.diff_ns, self@.fst.ns));
                assert((q % 10) as nat == (q as nat % 100) % 10);
                assert(s@ =~= percent_str(self@.diff_ns, self@.fst.ns));
            }
            s
        }
    }

    /// Renders the signed difference cell.
    pub fn diff_cell(&self) -> (r: String)
        requires
            self.wf(),
        ensures
            r@ == diff_cell_str(self@.diff_ns),
    {
        let a: i128 = if self.diff_ns < 0 {
            -self.diff_ns
        } else {
            self.diff_ns
        };
        let t = fmt_thousands_sep(a as usize, ',');
        if self.diff_ns < 0 {
            let mut s = String::new();
            s.append("-");
            s.append(t.as_str());
            proof {
                assert(s@ =~= diff_cell_str(self@.diff_ns));
            }
            s
        } else {
            proof {
                assert(t@ =~= diff_cell_str(self@.diff_ns));
            }
            t
        }
    }

    /// The five table cells of this comparison: the benchmark's name, the
    /// two time figures, the signed difference, and the percentage.
    pub fn to_row(&self, variance: bool) -> (r: Vec<String>)
        requires
            self.wf(),
        ensures
            views_of(r@) == row_str(self@, variance),
    {
        let mut r: Vec<String> = Vec::new();
        r.push(self.fst.name.clone());
        r.push(self.fst.fmt_ns(variance));
        r.push(self.snd.fmt_ns(variance));
        r.push(self.diff_cell());
        r.push(self.percent_cell());
        proof {
            assert(views_of(r@) =~= row_str(self@, variance));
        }
        r
    }
}

/// The five table cells of a comparison.
pub open spec fn row_str(c: ComparisonModel, variance: bool) -> Seq<Seq<char>> {
    seq![
        c.fst.name,
        fmt_ns_str(c.fst, variance),
        fmt_ns_str(c.snd, variance),
        diff_cell_str(c.diff_ns),
        percent_str(c.diff_ns, c.fst.ns),
    ]
}

impl Benchmark {
    /// Replaces every match of the pattern in this record's display name
    /// with the empty string; the measurements are untouched. A name the
    /// pattern does not match anywhere stays unchanged.
    pub fn filter_name(&mut self, re: &NamePattern)
        ensures
            final(self)@ == (BenchModel { name: replaced(re.pat(), old(self)@.name), ..old(self)@ }),
            !has_match(re.pat(), old(self)@.name) ==> final(self)@ == old(self)@,
    {
        self.name = re.strip(self.name.as_str());
        proof {
            assert(self@ =~= (BenchModel {
                name: replaced(re.pat(), old(self)@.name),
                ..old(self)@
            }));
            if !has_match(re.pat(), old(self)@.name) {
                assert(self@ =~= old(self)@);
            }
        }
    }
}


} // verus!
