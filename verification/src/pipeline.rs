//! The comparison pipeline: reading records out of report lines, regrouping
//! them by module, joining them by benchmark name, and filtering the
//! resulting comparisons.

use vstd::prelude::*;
use vstd::string::StringExecFns;

use crate::benchmark::{BenchModel, Benchmark, Benchmarks, CmpGroupModel, Comparisons, GroupModel};
use crate::cmd::CompareBy;
use crate::text::{lex_lt, views_of};

verus! {

/// The records carried by a sequence of report lines, in order.
pub open spec fn parsed_records(lines: Seq<Seq<char>>) -> Seq<BenchModel>
    decreases lines.len(),
{
    if lines.len() == 0 {
        Seq::empty()
    } else {
        parsed_records(lines.drop_last()) + (match crate::benchmark::parse_line(lines.last()) {
            Some(m) => seq![m],
            None => Seq::<BenchModel>::empty(),
        })
    }
}

/// Reads the benchmarks out of the lines of one report, under the given
/// source name. Lines that carry no record are skipped.
pub fn parse_benchmark_lines(name: String, lines: &Vec<String>) -> (r: Benchmarks)
    ensures
        r@.name == name@,
        r@.records == parsed_records(views_of(lines@)),
{
    let ghost vl = views_of(lines@);
    let mut bs: Vec<Benchmark> = Vec::new();
    let n = lines.len();
    let mut i: usize = 0;
    proof {
        assert(vl.take(0) =~= Seq::<Seq<char>>::empty());
        assert(crate::benchmark::models_of(bs@) =~= parsed_records(vl.take(0)));
    }
    while i < n
        invariant
            i <= n,
            n == lines@.len(),
            vl == views_of(lines@),
            crate::benchmark::models_of(bs@) == parsed_records(vl.take(i as int)),
        decreases n - i,
    {
        let line = lines[i].clone();
        proof {
            assert(vl[i as int] == lines@[i as int]@);
            assert(vl.take(i + 1).drop_last() =~= vl.take(i as int));
            assert(vl.take(i + 1).last() == line@);
        }
        let ghost old_bs = bs@;
        match Benchmark::parse(line) {
            Some(b) => {
                bs.push(b);
                proof {
                    assert(crate::benchmark::models_of(bs@) =~= crate::benchmark::models_of(
                        old_bs,
                    ) + seq![b@]);
                }
            },
            None => {},
        }
        i += 1;
    }
    proof {
        assert(vl.take(n as int) =~= vl);
    }
    Benchmarks { name, benchmarks: bs }
}

/// The position of the first `::` in a name, if any.
pub open spec fn sep_pos(s: Seq<char>) -> Option<nat>
    decreases s.len(),
{
    if s.len() < 2 {
        None
    } else if s[0] == ':' && s[1] == ':' {
        Some(0)
    } else {
        match sep_pos(s.skip(1)) {
            Some(i) => Some((i + 1) as nat),
            None => None,
        }
    }
}

/// The module part of a qualified name: what stands before the first `::`,
/// or the empty string when there is none.
pub open spec fn module_of(s: Seq<char>) -> Seq<char> {
    match sep_pos(s) {
        Some(i) => s.take(i as int),
        None => Seq::empty(),
    }
}

/// The leaf part of a qualified name: what stands after the first `::`, or
/// the whole name when there is none.
pub open spec fn leaf_of(s: Seq<char>) -> Seq<char> {
    match sep_pos(s) {
        Some(i) => s.skip(i as int + 2),
        None => s,
    }
}

/// `sep_pos` finds exactly the first separator.
pub proof fn lemma_first_separator(s: Seq<char>)
    ensures
        sep_pos(s) matches Some(i) ==> i + 2 <= s.len() && s[i as int] == ':' && s[i as int + 1] == ':'
            && (forall|j: int| 0 <= j < i ==> !(#[trigger] s[j] == ':' && s[j + 1] == ':')),
        sep_pos(s) is None ==> (forall|j: int|
            0 <= j && j + 1 < s.len() ==> !(#[trigger] s[j] == ':' && s[j + 1] == ':')),
    decreases s.len(),
{
    if s.len() < 2 {
    } else if s[0] == ':' && s[1] == ':' {
    } else {
        lemma_first_separator(s.skip(1));
        match sep_pos(s.skip(1)) {
            Some(ip) => {
                assert(s.skip(1)[ip as int] == s[ip as int + 1]);
                assert(s.skip(1)[ip as int + 1] == s[ip as int + 2]);
                assert forall|j: int| 0 <= j < ip + 1 implies !(#[trigger] s[j] == ':' && s[j + 1]
                    == ':') by {
                    if j > 0 {
                        assert(s.skip(1)[j - 1] == s[j]);
                        assert(s.skip(1)[j] == s[j + 1]);
                    }
                }
            },
            None => {
                assert forall|j: int| 0 <= j && j + 1 < s.len() implies !(#[trigger] s[j] == ':'
                    && s[j + 1] == ':') by {
                    if j > 0 {
                        assert(s.skip(1)[j - 1] == s[j]);
                        assert(s.skip(1)[j] == s[j + 1]);
                    }
                }
            },
        }
    }
}

/// A separator at `i` with none before it puts `sep_pos` at `i`.
proof fn lemma_sep_pos_found(s: Seq<char>, i: int)
    requires
        0 <= i,
        i + 2 <= s.len(),
        s[i] == ':' && s[i + 1] == ':',
        forall|j: int| 0 <= j < i ==> !(#[trigger] s[j] == ':' && s[j + 1] == ':'),
    ensures
        sep_pos(s) == Some(i as nat),
    decreases i,
{
    if i == 0 {
    } else {
        lemma_sep_pos_found(s.skip(1), i - 1);
    }
}

/// No separator anywhere leaves `sep_pos` empty.
proof fn lemma_sep_pos_absent(s: Seq<char>)
    requires
        forall|j: int| 0 <= j && j + 1 < s.len() ==> !(#[trigger] s[j] == ':' && s[j + 1] == ':'),
    ensures
        sep_pos(s) is None,
    decreases s.len(),
{
    if s.len() >= 2 {
        assert(forall|j: int|
            0 <= j && j + 1 < s.skip(1).len() ==> #[trigger] s.skip(1)[j] == s[j + 1] && s.skip(
                1,
            )[j + 1] == s[j + 2]);
        lemma_sep_pos_absent(s.skip(1));
    }
}

/// Splits a qualified name at its first `::` into module and leaf; a name
/// without a separator has the empty module and is its own leaf.
pub fn split_module(name: &str) -> (r: (String, String))
    ensures
        r.0@ == module_of(name@),
        r.1@ == leaf_of(name@),
{
    let n = name.unicode_len();
    let mut i: usize = 0;
    while i < n && i + 1 < n
        invariant
            n == name@.len(),
            i <= n,
            forall|j: int| 0 <= j < i ==> !(#[trigger] name@[j] == ':' && name@[j + 1] == ':'),
        decreases n - i,
    {
        if name.get_char(i) == ':' && name.get_char(i + 1) == ':' {
            proof {
                lemma_sep_pos_found(name@, i as int);
            }
            let module = name.substring_char(0, i);
            let leaf = name.substring_char(i + 2, n);
            let m = module.to_owned();
            let l = leaf.to_owned();
            proof {
                assert(m@ =~= module_of(name@));
                assert(l@ =~= leaf_of(name@));
            }
            return (m, l);
        }
        i += 1;
    }
    proof {
        lemma_sep_pos_absent(name@);
    }
    let whole = name.to_owned();
    (String::new(), whole)
}

/// The models of a sequence of values.
pub open spec fn vals_of<V: View>(v: Seq<V>) -> Seq<<V as View>::V> {
    v.map_values(|x: V| x@)
}

/// The models of keyed pairs.
pub open spec fn pair_models<V: View>(v: Seq<(String, V)>) -> Seq<(Seq<char>, <V as View>::V)> {
    v.map_values(|p: (String, V)| (p.0@, p.1@))
}

/// The models of keyed groups.
pub open spec fn group_tuple_models<V: View>(v: Seq<(String, Vec<V>)>) -> Seq<
    (Seq<char>, Seq<<V as View>::V>),
> {
    v.map_values(|g: (String, Vec<V>)| (g.0@, vals_of(g.1@)))
}

/// The values paired with `key`, in their original order.
pub open spec fn key_filter<M>(pairs: Seq<(Seq<char>, M)>, key: Seq<char>) -> Seq<M>
    decreases pairs.len(),
{
    if pairs.len() == 0 {
        Seq::empty()
    } else {
        key_filter(pairs.drop_last(), key) + (if pairs.last().0 == key {
            seq![pairs.last().1]
        } else {
            Seq::<M>::empty()
        })
    }
}

/// Whether some pair carries `key`.
pub open spec fn key_present<M>(pairs: Seq<(Seq<char>, M)>, key: Seq<char>) -> bool {
    exists|l: int| 0 <= l < pairs.len() && (#[trigger] pairs[l]).0 == key
}

/// Whether some group is named `key`.
pub open spec fn group_present<M>(out: Seq<(Seq<char>, Seq<M>)>, key: Seq<char>) -> bool {
    exists|j: int| 0 <= j < out.len() && (#[trigger] out[j]).0 == key
}

/// Strictly ascending group names.
pub open spec fn sorted_group_names<M>(out: Seq<(Seq<char>, Seq<M>)>) -> bool {
    forall|i: int, j: int|
        0 <= i < j < out.len() ==> lex_lt((#[trigger] out[i]).0, (#[trigger] out[j]).0)
}

/// `out` groups `pairs` by key: one group per distinct key, in strictly
/// ascending name order, each carrying that key's values in their original
/// order.
pub open spec fn grouped_by_key<M>(
    pairs: Seq<(Seq<char>, M)>,
    out: Seq<(Seq<char>, Seq<M>)>,
) -> bool {
    &&& sorted_group_names(out)
    &&& forall|j: int| 0 <= j < out.len() ==> (#[trigger] out[j]).1 == key_filter(pairs, out[j].0)
    &&& forall|l: int| 0 <= l < pairs.len() ==> group_present(out, (#[trigger] pairs[l]).0)
    &&& forall|j: int| 0 <= j < out.len() ==> key_present(pairs, (#[trigger] out[j]).0)
}

/// One more pair extends the filter of its own key and no other.
proof fn lemma_key_filter_push<M>(pairs: Seq<(Seq<char>, M)>, p: (Seq<char>, M), key: Seq<char>)
    ensures
        p.0 == key ==> key_filter(pairs.push(p), key) == key_filter(pairs, key).push(p.1),
        p.0 != key ==> key_filter(pairs.push(p), key) == key_filter(pairs, key),
{
    assert(pairs.push(p).drop_last() =~= pairs);
    assert(pairs.push(p).last() == p);
    if p.0 == key {
        assert(key_filter(pairs.push(p), key) =~= key_filter(pairs, key).push(p.1));
    } else {
        assert(key_filter(pairs.push(p), key) =~= key_filter(pairs, key));
    }
}

/// A key no pair carries filters to nothing.
proof fn lemma_key_filter_absent<M>(pairs: Seq<(Seq<char>, M)>, key: Seq<char>)
    requires
        forall|l: int| 0 <= l < pairs.len() ==> (#[trigger] pairs[l]).0 != key,
    ensures
        key_filter(pairs, key) == Seq::<M>::empty(),
    decreases pairs.len(),
{
    if pairs.len() == 0 {
        assert(key_filter(pairs, key) =~= Seq::<M>::empty());
    } else {
        assert(forall|l: int|
            0 <= l < pairs.drop_last().len() ==> (#[trigger] pairs.drop_last()[l]).0 != key);
        lemma_key_filter_absent(pairs.drop_last(), key);
        assert(pairs.last() == pairs[pairs.len() - 1]);
        assert(key_filter(pairs, key) =~= Seq::<M>::empty());
    }
}

/// Two distinct positions of a strictly sorted group list hold different
/// names.
proof fn lemma_sorted_distinct<M>(out: Seq<(Seq<char>, Seq<M>)>, i: int, j: int)
    requires
        sorted_group_names(out),
        0 <= i < out.len(),
        0 <= j < out.len(),
        i != j,
    ensures
        out[i].0 != out[j].0,
{
    if i < j {
        if out[i].0 == out[j].0 {
            crate::text::lemma_lex_irrefl(out[i].0);
        }
    } else {
        if out[i].0 == out[j].0 {
            crate::text::lemma_lex_irrefl(out[i].0);
        }
    }
}

/// Finds the slot of `k` among the sorted group names: its position when
/// present, else the position where it belongs.
fn find_slot<V: View>(out: &Vec<(String, Vec<V>)>, k: &String) -> (r: (usize, bool))
    requires
        sorted_group_names(group_tuple_models(out@)),
    ensures
        r.1 ==> r.0 < out@.len() && out@[r.0 as int].0@ == k@,
        !r.1 ==> r.0 <= out@.len() && (forall|j: int|
            0 <= j < r.0 ==> lex_lt((#[trigger] out@[j]).0@, k@)) && (r.0 < out@.len() ==> lex_lt(
            k@,
            out@[r.0 as int].0@,
        )),
{
    let n = out.len();
    let mut j: usize = 0;
    while j < n
        invariant
            n == out@.len(),
            j <= n,
            forall|j2: int| 0 <= j2 < j ==> lex_lt((#[trigger] out@[j2]).0@, k@),
        decreases n - j,
    {
        if crate::text::str_eq(out[j].0.as_str(), k.as_str()) {
            return (j, true);
        }
        if crate::text::str_lt(k.as_str(), out[j].0.as_str()) {
            return (j, false);
        }
        proof {
            if !lex_lt(out@[j as int].0@, k@) {
                crate::text::lemma_lex_connected(k@, out@[j as int].0@);
                assert(false);
            }
        }
        j += 1;
    }
    (n, false)
}

/// Groups the pairs by their keys: one group per distinct key, in strictly
/// ascending key order, each carrying its values in their original order.
pub fn group_by_key<V: View>(pairs: Vec<(String, V)>) -> (out: Vec<(String, Vec<V>)>)
    ensures
        grouped_by_key(pair_models(pairs@), group_tuple_models(out@)),
{
    let ghost orig = pair_models(pairs@);
    let mut work = pairs;
    let mut out: Vec<(String, Vec<V>)> = Vec::new();
    proof {
        assert(orig.skip(0) =~= orig);
        assert(orig.take(0) =~= Seq::<(Seq<char>, <V as View>::V)>::empty());
        assert(group_tuple_models(out@) =~= Seq::<(Seq<char>, Seq<<V as View>::V>)>::empty());
    }
    while work.len() > 0
        invariant
            work@.len() <= orig.len(),
            pair_models(work@) == orig.skip(orig.len() - work@.len()),
            grouped_by_key(
                orig.take(orig.len() - work@.len()),
                group_tuple_models(out@),
            ),
        decreases work@.len(),
    {
        let ghost k = orig.len() - work@.len();
        let ghost processed = orig.take(k);
        let ghost om = group_tuple_models(out@);
        let p = work.remove(0);
        proof {
            assert(pair_models(work@) =~= orig.skip(k).skip(1));
            assert(orig.skip(k).skip(1) =~= orig.skip(k + 1));
            assert(orig.skip(k)[0] == orig[k]);
            assert(orig[k] == (p.0@, p.1@));
            assert(orig.take(k + 1) =~= processed.push(orig[k]));
        }
        let (pos, found) = find_slot(&out, &p.0);
        if found {
            let ghost ob = out@;
            let mut g = out.remove(pos);
            let ghost gm = om[pos as int];
            g.1.push(p.1);
            let ghost gv = g;
            out.insert(pos, g);
            proof {
                assert(out@ =~= ob.update(pos as int, gv));
                assert(vals_of(gv.1@) =~= gm.1.push(p.1@));
                let nm2 = om.update(pos as int, (gm.0, gm.1.push(p.1@)));
                assert(group_tuple_models(out@) =~= nm2);
                assert(sorted_group_names(nm2)) by {
                    assert(forall|i: int| 0 <= i < nm2.len() ==> (#[trigger] nm2[i]).0 == om[i].0);
                }
                assert forall|j: int| 0 <= j < nm2.len() implies (#[trigger] nm2[j]).1
                    == key_filter(processed.push(orig[k]), nm2[j].0) by {
                    lemma_key_filter_push(processed, orig[k], nm2[j].0);
                    if j != pos as int {
                        lemma_sorted_distinct(om, j, pos as int);
                    }
                }
                assert forall|l: int| 0 <= l < k + 1 implies group_present(
                    nm2,
                    (#[trigger] orig.take(k + 1)[l]).0,
                ) by {
                    if l < k {
                        assert(orig.take(k + 1)[l] == processed[l]);
                        assert(group_present(om, processed[l].0));
                        let w = choose|j: int|
                            0 <= j < om.len() && (#[trigger] om[j]).0 == processed[l].0;
                        assert(nm2[w].0 == processed[l].0);
                    } else {
                        assert(orig.take(k + 1)[l] == orig[k]);
                        assert(nm2[pos as int].0 == orig[k].0);
                    }
                }
                assert forall|j: int| 0 <= j < nm2.len() implies key_present(
                    orig.take(k + 1),
                    (#[trigger] nm2[j]).0,
                ) by {
                    assert(key_present(processed, om[j].0));
                    let w = choose|l: int|
                        0 <= l < processed.len() && (#[trigger] processed[l]).0 == om[j].0;
                    assert(orig.take(k + 1)[w] == processed[w]);
                }
            }
        } else {
            let mut nv: Vec<V> = Vec::new();
            nv.push(p.1);
            let ghost km = p.0@;
            out.insert(pos, (p.0, nv));
            proof {
                let nm = group_tuple_models(out@);
                let ng = (km, seq![p.1@]);
                assert(nm =~= om.insert(pos as int, ng)) by {
                    assert(vals_of(nv@) =~= seq![p.1@]);
                }
                let nm2 = om.insert(pos as int, ng);
                // names around the insertion point
                assert forall|j: int| 0 <= j < om.len() implies om[j].0 != km by {
                    if j < pos as int {
                        crate::text::lemma_lex_irrefl(km);
                    } else {
                        assert(lex_lt(km, om[pos as int].0));
                        if j > pos as int {
                            crate::text::lemma_lex_trans(km, om[pos as int].0, om[j].0);
                        }
                        crate::text::lemma_lex_irrefl(km);
                    }
                }
                assert(sorted_group_names(nm2)) by {
                    assert forall|i: int, j: int| 0 <= i < j < nm2.len() implies lex_lt(
                        (#[trigger] nm2[i]).0,
                        (#[trigger] nm2[j]).0,
                    ) by {
                        if i < pos as int && j == pos as int {
                        } else if i == pos as int && j > pos as int {
                            if j - 1 > pos as int {
                                crate::text::lemma_lex_trans(km, om[pos as int].0, om[j - 1].0);
                            }
                        }
                    }
                }
                assert forall|j: int| 0 <= j < nm2.len() implies (#[trigger] nm2[j]).1
                    == key_filter(processed.push(orig[k]), nm2[j].0) by {
                    lemma_key_filter_push(processed, orig[k], nm2[j].0);
                    if j == pos as int {
                        assert forall|l: int| 0 <= l < processed.len() implies (#[trigger]
                        processed[l]).0 != km by {
                            assert(group_present(om, processed[l].0));
                            let w = choose|j2: int|
                                0 <= j2 < om.len() && (#[trigger] om[j2]).0 == processed[l].0;
                        }
                        lemma_key_filter_absent(processed, km);
                        assert(nm2[j].1 =~= key_filter(processed, km).push(p.1@));
                    } else if j < pos as int {
                        assert(nm2[j] == om[j]);
                    } else {
                        assert(nm2[j] == om[j - 1]);
                    }
                }
                assert forall|l: int| 0 <= l < k + 1 implies group_present(
                    nm2,
                    (#[trigger] orig.take(k + 1)[l]).0,
                ) by {
                    if l < k {
                        assert(orig.take(k + 1)[l] == processed[l]);
                        assert(group_present(om, processed[l].0));
                        let w = choose|j: int|
                            0 <= j < om.len() && (#[trigger] om[j]).0 == processed[l].0;
                        if w < pos as int {
                            assert(nm2[w].0 == processed[l].0);
                        } else {
                            assert(nm2[w + 1].0 == processed[l].0);
                        }
                    } else {
                        assert(orig.take(k + 1)[l] == orig[k]);
                        assert(nm2[pos as int].0 == orig[k].0);
                    }
                }
                assert forall|j: int| 0 <= j < nm2.len() implies key_present(
                    orig.take(k + 1),
                    (#[trigger] nm2[j]).0,
                ) by {
                    if j == pos as int {
                        assert(orig.take(k + 1)[k] == orig[k]);
                    } else {
                        let jo: int = if j < pos as int {
                            j
                        } else {
                            j - 1
                        };
                        assert(nm2[j] == om[jo]);
                        assert(key_present(processed, om[jo].0));
                        let w = choose|l: int|
                            0 <= l < processed.len() && (#[trigger] processed[l]).0 == om[jo].0;
                        assert(orig.take(k + 1)[w] == processed[w]);
                    }
                }
            }
        }
    }
    proof {
        assert(orig.take(orig.len() - work@.len()) =~= orig);
    }
    out
}

/// The models of a sequence of groups.
pub open spec fn group_models_of(v: Seq<Benchmarks>) -> Seq<GroupModel> {
    v.map_values(|g: Benchmarks| g@)
}

/// A record keyed by the module part of its name, renamed to the leaf.
pub open spec fn remap_pair(m: BenchModel) -> (Seq<char>, BenchModel) {
    (module_of(m.name), BenchModel { name: leaf_of(m.name), ..m })
}

/// The remapped records of one group, in order.
pub open spec fn module_pairs_of_records(rs: Seq<BenchModel>) -> Seq<(Seq<char>, BenchModel)>
    decreases rs.len(),
{
    if rs.len() == 0 {
        Seq::empty()
    } else {
        module_pairs_of_records(rs.drop_last()).push(remap_pair(rs.last()))
    }
}

/// All records of all groups, flattened in order and keyed by module.
pub open spec fn module_pairs(gs: Seq<GroupModel>) -> Seq<(Seq<char>, BenchModel)>
    decreases gs.len(),
{
    if gs.len() == 0 {
        Seq::empty()
    } else {
        module_pairs(gs.drop_last()) + module_pairs_of_records(gs.last().records)
    }
}

/// Flattens the groups into one stream of records, each keyed by the
/// module part of its name and renamed to the leaf part.
fn remap_records(nbs: &Vec<Benchmarks>) -> (pairs: Vec<(String, Benchmark)>)
    ensures
        pair_models(pairs@) == module_pairs(group_models_of(nbs@)),
{
    let ghost gm = group_models_of(nbs@);
    let mut pairs: Vec<(String, Benchmark)> = Vec::new();
    let gn = nbs.len();
    let mut gi: usize = 0;
    proof {
        assert(gm.take(0) =~= Seq::<GroupModel>::empty());
        assert(pair_models(pairs@) =~= module_pairs(gm.take(0)));
    }
    while gi < gn
        invariant
            gi <= gn,
            gn == nbs@.len(),
            gm == group_models_of(nbs@),
            pair_models(pairs@) == module_pairs(gm.take(gi as int)),
        decreases gn - gi,
    {
        let rn = nbs[gi].benchmarks.len();
        let mut ri: usize = 0;
        proof {
            assert(gm[gi as int] == nbs@[gi as int]@);
            assert(gm[gi as int].records.take(0) =~= Seq::<BenchModel>::empty());
            assert(module_pairs_of_records(gm[gi as int].records.take(0))
                =~= Seq::<(Seq<char>, BenchModel)>::empty());
            assert(pair_models(pairs@) =~= module_pairs(gm.take(gi as int))
                + module_pairs_of_records(gm[gi as int].records.take(0)));
        }
        while ri < rn
            invariant
                ri <= rn,
                gi < gn,
                gn == nbs@.len(),
                rn == nbs@[gi as int].benchmarks@.len(),
                gm == group_models_of(nbs@),
                pair_models(pairs@) == module_pairs(gm.take(gi as int)) + module_pairs_of_records(
                    gm[gi as int].records.take(ri as int),
                ),
            decreases rn - ri,
        {
            let ghost grs = gm[gi as int].records;
            let b = nbs[gi].benchmarks[ri].clone();
            let (module, leaf) = split_module(b.name.as_str());
            let nb = Benchmark { name: leaf, ns: b.ns, variance: b.variance, throughput: b.throughput };
            let ghost old_pairs = pairs@;
            pairs.push((module, nb));
            proof {
                assert(gm[gi as int] == nbs@[gi as int]@);
                assert(grs[ri as int] == nbs@[gi as int].benchmarks@[ri as int]@);
                assert(grs.take(ri + 1).drop_last() =~= grs.take(ri as int));
                assert(grs.take(ri + 1).last() == grs[ri as int]);
                assert(nb@ =~= (BenchModel { name: leaf_of(grs[ri as int].name), ..grs[ri as int] }));
                assert(pair_models(pairs@) =~= pair_models(old_pairs).push((module@, nb@)));
                assert(module_pairs(gm.take(gi as int)) + module_pairs_of_records(
                    grs.take(ri + 1),
                ) =~= (module_pairs(gm.take(gi as int)) + module_pairs_of_records(
                    grs.take(ri as int),
                )).push(remap_pair(grs[ri as int])));
            }
            ri += 1;
        }
        proof {
            assert(gm[gi as int].records.take(rn as int) =~= gm[gi as int].records);
            assert(gm.take(gi + 1).drop_last() =~= gm.take(gi as int));
            assert(gm.take(gi + 1).last() == gm[gi as int]);
        }
        gi += 1;
    }
    proof {
        assert(gm.take(gn as int) =~= gm);
    }
    pairs
}

/// The groups seen as name-keyed tuples.
pub open spec fn as_key_groups(gs: Seq<GroupModel>) -> Seq<(Seq<char>, Seq<BenchModel>)> {
    gs.map_values(|g: GroupModel| (g.name, g.records))
}

/// Checks whether the benchmarks should be gathered by module instead of
/// by file; if so, regroups them. Grouping by file returns the input
/// unchanged; grouping by module flattens all records, splits each name at
/// its first `::` into module and leaf, and emits one group per module in
/// ascending module-name order, records in their original order.
pub fn by_module_name(nbs: Vec<Benchmarks>, tool_mode: CompareBy) -> (r: Vec<Benchmarks>)
    ensures
        tool_mode == CompareBy::File ==> r == nbs,
        tool_mode == CompareBy::Module ==> grouped_by_key(
            module_pairs(group_models_of(nbs@)),
            as_key_groups(group_models_of(r@)),
        ),
{
    match tool_mode {
        CompareBy::File => nbs,
        CompareBy::Module => {
            let pairs = remap_records(&nbs);
            let ghost pm = pair_models(pairs@);
            let groups = group_by_key(pairs);
            let ghost tm = group_tuple_models(groups@);
            let mut out: Vec<Benchmarks> = Vec::new();
            let gn = groups.len();
            let mut work = groups;
            proof {
                assert(as_key_groups(group_models_of(out@)) =~= tm.take(0));
            }
            while work.len() > 0
                invariant
                    work@.len() <= tm.len(),
                    group_tuple_models(work@) == tm.skip(tm.len() - work@.len()),
                    as_key_groups(group_models_of(out@)) == tm.take(tm.len() - work@.len()),
                    grouped_by_key(pm, tm),
                decreases work@.len(),
            {
                let ghost k = tm.len() - work@.len();
                let ghost old_out = out@;
                let g = work.remove(0);
                proof {
                    assert(group_tuple_models(work@) =~= tm.skip(k).skip(1));
                    assert(tm.skip(k).skip(1) =~= tm.skip(k + 1));
                    assert(tm.skip(k)[0] == tm[k]);
                    assert(tm[k] == (g.0@, vals_of(g.1@)));
                }
                let nb = Benchmarks { name: g.0, benchmarks: g.1 };
                out.push(nb);
                proof {
                    assert(crate::benchmark::models_of(nb.benchmarks@) =~= vals_of(nb.benchmarks@));
                    assert(as_key_groups(group_models_of(out@)) =~= as_key_groups(
                        group_models_of(old_out),
                    ).push(tm[k]));
                    assert(tm.take(k + 1) =~= tm.take(k).push(tm[k]));
                }
            }
            proof {
                assert(tm.take(tm.len() - work@.len()) =~= tm);
                assert(as_key_groups(group_models_of(out@)) == tm);
            }
            out
        },
    }
}

/// The flattened stream of all records of all groups, each keyed by its
/// benchmark name and carrying its source label.
pub open spec fn bench_pairs_of_records(label: Seq<char>, rs: Seq<BenchModel>) -> Seq<
    (Seq<char>, (Seq<char>, BenchModel)),
>
    decreases rs.len(),
{
    if rs.len() == 0 {
        Seq::empty()
    } else {
        bench_pairs_of_records(label, rs.drop_last()).push(
            (rs.last().name, (label, rs.last())),
        )
    }
}

/// All records of all groups, flattened in order and keyed by benchmark
/// name.
pub open spec fn bench_pairs(gs: Seq<GroupModel>) -> Seq<(Seq<char>, (Seq<char>, BenchModel))>
    decreases gs.len(),
{
    if gs.len() == 0 {
        Seq::empty()
    } else {
        bench_pairs(gs.drop_last()) + bench_pairs_of_records(gs.last().name, gs.last().records)
    }
}

/// The models of a sequence of comparison groups.
pub open spec fn cmp_models_of(v: Seq<Comparisons>) -> Seq<CmpGroupModel> {
    v.map_values(|c: Comparisons| c@)
}

/// The comparison groups seen as name-keyed tuples.
pub open spec fn as_cmp_tuples(ms: Seq<CmpGroupModel>) -> Seq<
    (Seq<char>, Seq<(Seq<char>, BenchModel)>),
> {
    ms.map_values(|m: CmpGroupModel| (m.bench_name, m.assocs))
}

/// Strictly ascending benchmark names.
pub open spec fn sorted_cmp_names(ms: Seq<CmpGroupModel>) -> bool {
    forall|i: int, j: int|
        0 <= i < j < ms.len() ==> lex_lt(
            (#[trigger] ms[i]).bench_name,
            (#[trigger] ms[j]).bench_name,
        )
}

/// Whether some comparison group carries `key` as its benchmark name.
pub open spec fn cmp_name_present(ms: Seq<CmpGroupModel>, key: Seq<char>) -> bool {
    exists|i: int| 0 <= i < ms.len() && (#[trigger] ms[i]).bench_name == key
}

/// The groups with at least two entries, in order.
pub open spec fn matched_of(all: Seq<CmpGroupModel>) -> Seq<CmpGroupModel>
    decreases all.len(),
{
    if all.len() == 0 {
        Seq::empty()
    } else {
        matched_of(all.drop_last()) + (if all.last().assocs.len() >= 2 {
            seq![all.last()]
        } else {
            Seq::<CmpGroupModel>::empty()
        })
    }
}

/// The groups with fewer than two entries, in order.
pub open spec fn singles_of(all: Seq<CmpGroupModel>) -> Seq<CmpGroupModel>
    decreases all.len(),
{
    if all.len() == 0 {
        Seq::empty()
    } else {
        singles_of(all.drop_last()) + (if all.last().assocs.len() < 2 {
            seq![all.last()]
        } else {
            Seq::<CmpGroupModel>::empty()
        })
    }
}

/// What the joiner promises: both parts are sorted by benchmark name; each
/// group carries exactly the entries of its name, in source order; a group
/// is matched when two or more sources contributed and single otherwise;
/// and every flattened record's name stands in one of the parts.
pub open spec fn joined(
    pairs: Seq<(Seq<char>, (Seq<char>, BenchModel))>,
    matched: Seq<CmpGroupModel>,
    singles: Seq<CmpGroupModel>,
) -> bool {
    &&& sorted_cmp_names(matched)
    &&& sorted_cmp_names(singles)
    &&& forall|i: int|
        0 <= i < matched.len() ==> (#[trigger] matched[i]).assocs == key_filter(
            pairs,
            matched[i].bench_name,
        ) && matched[i].assocs.len() >= 2 && key_present(pairs, matched[i].bench_name)
    &&& forall|i: int|
        0 <= i < singles.len() ==> (#[trigger] singles[i]).assocs == key_filter(
            pairs,
            singles[i].bench_name,
        ) && singles[i].assocs.len() < 2 && key_present(pairs, singles[i].bench_name)
    &&& forall|l: int|
        0 <= l < pairs.len() ==> cmp_name_present(matched, (#[trigger] pairs[l]).0)
            || cmp_name_present(singles, pairs[l].0)
}

/// Every matched group is one of the groups, with two or more entries.
proof fn lemma_matched_of_membership(all: Seq<CmpGroupModel>)
    ensures
        forall|i: int|
            0 <= i < matched_of(all).len() ==> (exists|j: int|
                0 <= j < all.len() && (#[trigger] matched_of(all)[i]) == all[j]) && matched_of(
                all,
            )[i].assocs.len() >= 2,
    decreases all.len(),
{
    if all.len() > 0 {
        lemma_matched_of_membership(all.drop_last());
        assert forall|i: int| 0 <= i < matched_of(all).len() implies (exists|j: int|
            0 <= j < all.len() && (#[trigger] matched_of(all)[i]) == all[j]) && matched_of(
            all,
        )[i].assocs.len() >= 2 by {
            if i < matched_of(all.drop_last()).len() {
                let j = choose|j: int|
                    0 <= j < all.drop_last().len() && matched_of(all.drop_last())[i] == all
                        .drop_last()[j];
                assert(all.drop_last()[j] == all[j]);
                assert(matched_of(all)[i] == matched_of(all.drop_last())[i]);
            } else {
                assert(matched_of(all)[i] == all[all.len() - 1]);
            }
        }
    }
}

/// Every single group is one of the groups, with fewer than two entries.
proof fn lemma_singles_of_membership(all: Seq<CmpGroupModel>)
    ensures
        forall|i: int|
            0 <= i < singles_of(all).len() ==> (exists|j: int|
                0 <= j < all.len() && (#[trigger] singles_of(all)[i]) == all[j]) && singles_of(
                all,
            )[i].assocs.len() < 2,
    decreases all.len(),
{
    if all.len() > 0 {
        lemma_singles_of_membership(all.drop_last());
        assert forall|i: int| 0 <= i < singles_of(all).len() implies (exists|j: int|
            0 <= j < all.len() && (#[trigger] singles_of(all)[i]) == all[j]) && singles_of(
            all,
        )[i].assocs.len() < 2 by {
            if i < singles_of(all.drop_last()).len() {
                let j = choose|j: int|
                    0 <= j < all.drop_last().len() && singles_of(all.drop_last())[i] == all
                        .drop_last()[j];
                assert(all.drop_last()[j] == all[j]);
                assert(singles_of(all)[i] == singles_of(all.drop_last())[i]);
            } else {
                assert(singles_of(all)[i] == all[all.len() - 1]);
            }
        }
    }
}

/// A group with two or more entries stands in the matched part, one with
/// fewer in the single part.
proof fn lemma_split_of_complete(all: Seq<CmpGroupModel>)
    ensures
        forall|j: int|
            0 <= j < all.len() && (#[trigger] all[j]).assocs.len() >= 2 ==> cmp_name_present(
                matched_of(all),
                all[j].bench_name,
            ),
        forall|j: int|
            0 <= j < all.len() && (#[trigger] all[j]).assocs.len() < 2 ==> cmp_name_present(
                singles_of(all),
                all[j].bench_name,
            ),
    decreases all.len(),
{
    if all.len() > 0 {
        lemma_split_of_complete(all.drop_last());
        assert forall|j: int|
            0 <= j < all.len() && (#[trigger] all[j]).assocs.len() >= 2 implies cmp_name_present(
            matched_of(all),
            all[j].bench_name,
        ) by {
            if j < all.len() - 1 {
                assert(all.drop_last()[j] == all[j]);
                let i = choose|i: int|
                    0 <= i < matched_of(all.drop_last()).len() && (#[trigger] matched_of(
                        all.drop_last(),
                    )[i]).bench_name == all[j].bench_name;
                assert(matched_of(all)[i] == matched_of(all.drop_last())[i]);
            } else {
                assert(matched_of(all)[matched_of(all).len() - 1] == all[j]);
            }
        }
        assert forall|j: int|
            0 <= j < all.len() && (#[trigger] all[j]).assocs.len() < 2 implies cmp_name_present(
            singles_of(all),
            all[j].bench_name,
        ) by {
            if j < all.len() - 1 {
                assert(all.drop_last()[j] == all[j]);
                let i = choose|i: int|
                    0 <= i < singles_of(all.drop_last()).len() && (#[trigger] singles_of(
                        all.drop_last(),
                    )[i]).bench_name == all[j].bench_name;
                assert(singles_of(all)[i] == singles_of(all.drop_last())[i]);
            } else {
                assert(singles_of(all)[singles_of(all).len() - 1] == all[j]);
            }
        }
    }
}

/// Splitting a sorted group list leaves both parts sorted.
proof fn lemma_split_of_sorted(all: Seq<CmpGroupModel>)
    requires
        sorted_cmp_names(all),
    ensures
        sorted_cmp_names(matched_of(all)),
        sorted_cmp_names(singles_of(all)),
    decreases all.len(),
{
    if all.len() > 0 {
        let d = all.drop_last();
        assert(forall|j: int| 0 <= j < d.len() ==> #[trigger] d[j] == all[j]);
        lemma_split_of_sorted(d);
        lemma_matched_of_membership(d);
        lemma_singles_of_membership(d);
        assert forall|i: int, j: int| 0 <= i < j < matched_of(all).len() implies lex_lt(
            (#[trigger] matched_of(all)[i]).bench_name,
            (#[trigger] matched_of(all)[j]).bench_name,
        ) by {
            if j < matched_of(d).len() {
                assert(matched_of(all)[i] == matched_of(d)[i]);
                assert(matched_of(all)[j] == matched_of(d)[j]);
            } else {
                assert(matched_of(all)[i] == matched_of(d)[i]);
                assert(matched_of(all)[j] == all[all.len() - 1]);
                let w = choose|w: int| 0 <= w < d.len() && matched_of(d)[i] == d[w];
                assert(lex_lt(all[w].bench_name, all[all.len() - 1].bench_name));
            }
        }
        assert forall|i: int, j: int| 0 <= i < j < singles_of(all).len() implies lex_lt(
            (#[trigger] singles_of(all)[i]).bench_name,
            (#[trigger] singles_of(all)[j]).bench_name,
        ) by {
            if j < singles_of(d).len() {
                assert(singles_of(all)[i] == singles_of(d)[i]);
                assert(singles_of(all)[j] == singles_of(d)[j]);
            } else {
                assert(singles_of(all)[i] == singles_of(d)[i]);
                assert(singles_of(all)[j] == all[all.len() - 1]);
                let w = choose|w: int| 0 <= w < d.len() && singles_of(d)[i] == d[w];
                assert(lex_lt(all[w].bench_name, all[all.len() - 1].bench_name));
            }
        }
    }
}

/// A grouped list split into matched and single parts satisfies the
/// joiner's contract.
proof fn lemma_split_joined(
    pairs: Seq<(Seq<char>, (Seq<char>, BenchModel))>,
    all: Seq<CmpGroupModel>,
)
    requires
        grouped_by_key(pairs, as_cmp_tuples(all)),
    ensures
        joined(pairs, matched_of(all), singles_of(all)),
{
    let tuples = as_cmp_tuples(all);
    assert(forall|j: int|
        0 <= j < all.len() ==> (#[trigger] tuples[j]) == (all[j].bench_name, all[j].assocs));
    assert forall|i: int, j: int| 0 <= i < j < all.len() implies lex_lt(
        (#[trigger] all[i]).bench_name,
        (#[trigger] all[j]).bench_name,
    ) by {
        assert(tuples[i].0 == all[i].bench_name);
        assert(tuples[j].0 == all[j].bench_name);
        assert(lex_lt(tuples[i].0, tuples[j].0));
    }
    assert(sorted_cmp_names(all));
    lemma_split_of_sorted(all);
    lemma_matched_of_membership(all);
    lemma_singles_of_membership(all);
    lemma_split_of_complete(all);
    assert forall|i: int| 0 <= i < matched_of(all).len() implies (#[trigger] matched_of(
        all,
    )[i]).assocs == key_filter(pairs, matched_of(all)[i].bench_name) && matched_of(
        all,
    )[i].assocs.len() >= 2 && key_present(pairs, matched_of(all)[i].bench_name) by {
        let j = choose|j: int| 0 <= j < all.len() && matched_of(all)[i] == all[j];
        assert(tuples[j].1 == key_filter(pairs, tuples[j].0));
        assert(key_present(pairs, tuples[j].0));
    }
    assert forall|i: int| 0 <= i < singles_of(all).len() implies (#[trigger] singles_of(
        all,
    )[i]).assocs == key_filter(pairs, singles_of(all)[i].bench_name) && singles_of(
        all,
    )[i].assocs.len() < 2 && key_present(pairs, singles_of(all)[i].bench_name) by {
        let j = choose|j: int| 0 <= j < all.len() && singles_of(all)[i] == all[j];
        assert(tuples[j].1 == key_filter(pairs, tuples[j].0));
        assert(key_present(pairs, tuples[j].0));
    }
    assert forall|l: int| 0 <= l < pairs.len() implies cmp_name_present(
        matched_of(all),
        (#[trigger] pairs[l]).0,
    ) || cmp_name_present(singles_of(all), pairs[l].0) by {
        assert(group_present(tuples, pairs[l].0));
        let j = choose|j: int| 0 <= j < tuples.len() && (#[trigger] tuples[j]).0 == pairs[l].0;
        if all[j].assocs.len() >= 2 {
            assert(cmp_name_present(matched_of(all), all[j].bench_name));
        } else {
            assert(cmp_name_present(singles_of(all), all[j].bench_name));
        }
    }
}

/// Flattens the groups into one stream of records, each keyed by its
/// benchmark name and carrying its source label.
fn bench_key_pairs(nbs: &Vec<Benchmarks>) -> (pairs: Vec<(String, (String, Benchmark))>)
    ensures
        pair_models(pairs@) == bench_pairs(group_models_of(nbs@)),
{
    let ghost gm = group_models_of(nbs@);
    let mut pairs: Vec<(String, (String, Benchmark))> = Vec::new();
    let gn = nbs.len();
    let mut gi: usize = 0;
    proof {
        assert(gm.take(0) =~= Seq::<GroupModel>::empty());
        assert(pair_models(pairs@) =~= bench_pairs(gm.take(0)));
    }
    while gi < gn
        invariant
            gi <= gn,
            gn == nbs@.len(),
            gm == group_models_of(nbs@),
            pair_models(pairs@) == bench_pairs(gm.take(gi as int)),
        decreases gn - gi,
    {
        let rn = nbs[gi].benchmarks.len();
        let mut ri: usize = 0;
        proof {
            assert(gm[gi as int] == nbs@[gi as int]@);
            assert(gm[gi as int].records.take(0) =~= Seq::<BenchModel>::empty());
            assert(bench_pairs_of_records(gm[gi as int].name, gm[gi as int].records.take(0))
                =~= Seq::<(Seq<char>, (Seq<char>, BenchModel))>::empty());
            assert(pair_models(pairs@) =~= bench_pairs(gm.take(gi as int))
                + bench_pairs_of_records(gm[gi as int].name, gm[gi as int].records.take(0)));
        }
        while ri < rn
            invariant
                ri <= rn,
                gi < gn,
                gn == nbs@.len(),
                rn == nbs@[gi as int].benchmarks@.len(),
                gm == group_models_of(nbs@),
                pair_models(pairs@) == bench_pairs(gm.take(gi as int)) + bench_pairs_of_records(
                    gm[gi as int].name,
                    gm[gi as int].records.take(ri as int),
                ),
            decreases rn - ri,
        {
            let ghost grs = gm[gi as int].records;
            let b = nbs[gi].benchmarks[ri].clone();
            let key = b.name.clone();
            let label = nbs[gi].name.clone();
            let ghost old_pairs = pairs@;
            pairs.push((key, (label, b)));
            proof {
                assert(gm[gi as int] == nbs@[gi as int]@);
                assert(grs[ri as int] == nbs@[gi as int].benchmarks@[ri as int]@);
                assert(grs.take(ri + 1).drop_last() =~= grs.take(ri as int));
                assert(grs.take(ri + 1).last() == grs[ri as int]);
                assert(pair_models(pairs@) =~= pair_models(old_pairs).push(
                    (grs[ri as int].name, (gm[gi as int].name, grs[ri as int])),
                ));
            }
            ri += 1;
        }
        proof {
            assert(gm[gi as int].records.take(rn as int) =~= gm[gi as int].records);
            assert(gm.take(gi + 1).drop_last() =~= gm.take(gi as int));
            assert(gm.take(gi + 1).last() == gm[gi as int]);
        }
        gi += 1;
    }
    proof {
        assert(gm.take(gn as int) =~= gm);
    }
    pairs
}

/// Pivots the source-keyed groups into benchmark-name-keyed groups. The
/// first part holds the names two or more sources contributed to, the
/// second the unmatched names; both are in ascending name order, and each
/// group lists `(source label, record)` in the sources' order.
pub fn by_bench_name(nbs: Vec<Benchmarks>) -> (r: (Vec<Comparisons>, Vec<Comparisons>))
    ensures
        joined(bench_pairs(group_models_of(nbs@)), cmp_models_of(r.0@), cmp_models_of(r.1@)),
        forall|i: int| 0 <= i < r.1@.len() ==> (#[trigger] r.1@[i]).assocs@.len() >= 1,
{
    let pairs = bench_key_pairs(&nbs);
    let ghost pm = pair_models(pairs@);
    let grouped = group_by_key(pairs);
    let ghost tm = group_tuple_models(grouped@);
    let mut all_c: Vec<Comparisons> = Vec::new();
    let mut work = grouped;
    proof {
        assert(as_cmp_tuples(cmp_models_of(all_c@)) =~= tm.take(0));
    }
    while work.len() > 0
        invariant
            work@.len() <= tm.len(),
            group_tuple_models(work@) == tm.skip(tm.len() - work@.len()),
            as_cmp_tuples(cmp_models_of(all_c@)) == tm.take(tm.len() - work@.len()),
            grouped_by_key(pm, tm),
        decreases work@.len(),
    {
        let ghost k = tm.len() - work@.len();
        let ghost old_all = all_c@;
        let g = work.remove(0);
        proof {
            assert(group_tuple_models(work@) =~= tm.skip(k).skip(1));
            assert(tm.skip(k).skip(1) =~= tm.skip(k + 1));
            assert(tm.skip(k)[0] == tm[k]);
            assert(tm[k] == (g.0@, vals_of(g.1@)));
        }
        let c = Comparisons { bench_name: g.0, assocs: g.1 };
        all_c.push(c);
        proof {
            assert(crate::benchmark::assoc_models_of(c.assocs@) =~= vals_of(c.assocs@));
            assert(as_cmp_tuples(cmp_models_of(all_c@)) =~= as_cmp_tuples(
                cmp_models_of(old_all),
            ).push(tm[k]));
            assert(tm.take(k + 1) =~= tm.take(k).push(tm[k]));
        }
    }
    proof {
        assert(tm.take(tm.len() - work@.len()) =~= tm);
        assert(as_cmp_tuples(cmp_models_of(all_c@)) == tm);
    }
    let ghost am = cmp_models_of(all_c@);
    let mut matched: Vec<Comparisons> = Vec::new();
    let mut singles: Vec<Comparisons> = Vec::new();
    let mut rest = all_c;
    proof {
        assert(cmp_models_of(matched@) =~= matched_of(am.take(0)));
        assert(cmp_models_of(singles@) =~= singles_of(am.take(0)));
    }
    while rest.len() > 0
        invariant
            rest@.len() <= am.len(),
            cmp_models_of(rest@) == am.skip(am.len() - rest@.len()),
            cmp_models_of(matched@) == matched_of(am.take(am.len() - rest@.len())),
            cmp_models_of(singles@) == singles_of(am.take(am.len() - rest@.len())),
        decreases rest@.len(),
    {
        let ghost k = am.len() - rest@.len();
        let ghost old_m = matched@;
        let ghost old_s = singles@;
        let c = rest.remove(0);
        proof {
            assert(cmp_models_of(rest@) =~= am.skip(k).skip(1));
            assert(am.skip(k).skip(1) =~= am.skip(k + 1));
            assert(am.skip(k)[0] == am[k]);
            assert(am[k] == c@);
            assert(am.take(k + 1).drop_last() =~= am.take(k));
            assert(am.take(k + 1).last() == am[k]);
        }
        if c.assocs.len() >= 2 {
            matched.push(c);
            proof {
                assert(cmp_models_of(matched@) =~= cmp_models_of(old_m).push(am[k]));
                assert(matched_of(am.take(k + 1)) =~= matched_of(am.take(k)).push(am[k]));
                assert(singles_of(am.take(k + 1)) =~= singles_of(am.take(k)));
            }
        } else {
            singles.push(c);
            proof {
                assert(cmp_models_of(singles@) =~= cmp_models_of(old_s).push(am[k]));
                assert(singles_of(am.take(k + 1)) =~= singles_of(am.take(k)).push(am[k]));
                assert(matched_of(am.take(k + 1)) =~= matched_of(am.take(k)));
            }
        }
    }
    proof {
        assert(am.take(am.len() - rest@.len()) =~= am);
        lemma_split_joined(pm, am);
        assert(pm == bench_pairs(group_models_of(nbs@)));
        assert forall|i: int|
            0 <= i < singles@.len() implies (#[trigger] singles@[i]).assocs@.len() >= 1 by {
            let sm = cmp_models_of(singles@);
            assert(sm[i] == singles@[i]@);
            assert(sm[i].assocs == key_filter(pm, sm[i].bench_name));
            lemma_key_filter_present(pm, sm[i].bench_name);
        }
    }
    (matched, singles)
}

/// The unmatched names keyed by the label of the first source that
/// contributed each.
pub open spec fn warn_pairs(ms: Seq<CmpGroupModel>) -> Seq<(Seq<char>, Seq<char>)>
    decreases ms.len(),
{
    if ms.len() == 0 {
        Seq::empty()
    } else {
        warn_pairs(ms.drop_last()).push((ms.last().assocs[0].0, ms.last().bench_name))
    }
}

/// Gathers the unmatched benchmark names for a warning: one entry per
/// first-contributing source label, in ascending label order, each listing
/// the names in their original order.
pub fn warn_missing(singles: &Vec<Comparisons>) -> (r: Vec<(String, Vec<String>)>)
    requires
        forall|i: int| 0 <= i < singles@.len() ==> (#[trigger] singles@[i]).assocs@.len() >= 1,
    ensures
        grouped_by_key(warn_pairs(cmp_models_of(singles@)), group_tuple_models(r@)),
{
    let ghost sm = cmp_models_of(singles@);
    let mut pairs: Vec<(String, String)> = Vec::new();
    let n = singles.len();
    let mut i: usize = 0;
    proof {
        assert(sm.take(0) =~= Seq::<CmpGroupModel>::empty());
        assert(pair_models(pairs@) =~= warn_pairs(sm.take(0)));
    }
    while i < n
        invariant
            i <= n,
            n == singles@.len(),
            sm == cmp_models_of(singles@),
            forall|j: int| 0 <= j < singles@.len() ==> (#[trigger] singles@[j]).assocs@.len() >= 1,
            pair_models(pairs@) == warn_pairs(sm.take(i as int)),
        decreases n - i,
    {
        let label = singles[i].assocs[0].0.clone();
        let bname = singles[i].bench_name.clone();
        let ghost old_pairs = pairs@;
        pairs.push((label, bname));
        proof {
            assert(sm[i as int] == singles@[i as int]@);
            assert(sm[i as int].assocs[0] == (singles@[i as int].assocs@[0].0@, singles@[i as int].assocs@[0].1@));
            assert(sm.take(i + 1).drop_last() =~= sm.take(i as int));
            assert(sm.take(i + 1).last() == sm[i as int]);
            assert(pair_models(pairs@) =~= pair_models(old_pairs).push(
                (sm[i as int].assocs[0].0, sm[i as int].bench_name),
            ));
        }
        i += 1;
    }
    proof {
        assert(sm.take(n as int) =~= sm);
    }
    group_by_key(pairs)
}

/// Why a run cannot proceed.
#[derive(Debug, PartialEq)]
pub enum CmpError {
    /// A name-strip pattern that does not compile, with the pattern's text
    /// and the description the pattern compiler gave.
    BadPattern { pattern: String, message: String },
    /// A two-way comparison by file needs exactly two sources; this many
    /// were given.
    SourceCount { found: usize },
}

/// Whether some group carries `key` as its name.
pub open spec fn group_named(gs: Seq<GroupModel>, key: Seq<char>) -> bool {
    exists|j: int| 0 <= j < gs.len() && (#[trigger] gs[j]).name == key
}

/// `g` is the first group named `key`, or an empty group under that name
/// when there is none.
pub open spec fn first_named(gs: Seq<GroupModel>, key: Seq<char>, g: GroupModel) -> bool {
    if group_named(gs, key) {
        exists|j: int|
            0 <= j < gs.len() && (#[trigger] gs[j]).name == key && g == gs[j] && (forall|j2: int|
                0 <= j2 < j ==> (#[trigger] gs[j2]).name != key)
    } else {
        g.name == key && g.records.len() == 0
    }
}

/// The first group with the given name, or a fresh empty one.
fn b_w_name(nbs: &Vec<Benchmarks>, name: &String) -> (r: Benchmarks)
    ensures
        first_named(group_models_of(nbs@), name@, r@),
{
    let ghost gs = group_models_of(nbs@);
    let n = nbs.len();
    let mut j: usize = 0;
    while j < n
        invariant
            j <= n,
            n == nbs@.len(),
            gs == group_models_of(nbs@),
            forall|j2: int| 0 <= j2 < j ==> (#[trigger] gs[j2]).name != name@,
        decreases n - j,
    {
        proof {
            assert(gs[j as int] == nbs@[j as int]@);
        }
        if crate::text::str_eq(nbs[j].name.as_str(), name.as_str()) {
            let r = nbs[j].clone();
            return r;
        }
        j += 1;
    }
    proof {
        if group_named(gs, name@) {
            let w = choose|w: int| 0 <= w < gs.len() && (#[trigger] gs[w]).name == name@;
            assert(false);
        }
    }
    Benchmarks::new(name.clone())
}

/// Selects the two groups a table compares: by module, the two named
/// modules (a missing module yields an empty group); by file, exactly the
/// two files that were read — any other number of sources is a usage
/// error.
pub fn filter_benchmarks(nbs: &Vec<Benchmarks>, settings: &crate::cmd::TableSettings) -> (r:
    Result<Vec<Benchmarks>, CmpError>)
    ensures
        settings.compare_by matches crate::cmd::TableCompareBy::Module(n0, n1) ==> r matches Ok(v)
            && v@.len() == 2 && first_named(group_models_of(nbs@), n0@, v@[0]@) && first_named(
            group_models_of(nbs@),
            n1@,
            v@[1]@,
        ),
        settings.compare_by is File ==> ((r is Ok <==> nbs@.len() == 2) && (r matches Ok(v) ==> v@.len()
            == 2 && v@[0]@ == group_models_of(nbs@)[0] && v@[1]@ == group_models_of(nbs@)[1]) && (r
            matches Err(e) ==> e == (CmpError::SourceCount { found: nbs@.len() as usize }))),
{
    match &settings.compare_by {
        crate::cmd::TableCompareBy::Module(n0, n1) => {
            let g0 = b_w_name(nbs, n0);
            let g1 = b_w_name(nbs, n1);
            let mut v: Vec<Benchmarks> = Vec::new();
            v.push(g0);
            v.push(g1);
            Ok(v)
        },
        crate::cmd::TableCompareBy::File => {
            if nbs.len() == 2 {
                let mut v: Vec<Benchmarks> = Vec::new();
                v.push(nbs[0].clone());
                v.push(nbs[1].clone());
                proof {
                    assert(group_models_of(nbs@)[0] == nbs@[0]@);
                    assert(group_models_of(nbs@)[1] == nbs@[1]@);
                }
                Ok(v)
            } else {
                Err(CmpError::SourceCount { found: nbs.len() })
            }
        },
    }
}

/// Compiles a name-strip pattern; an invalid pattern is reported as a
/// configuration error carrying the pattern's text and a description.
pub fn compile_pattern(pattern: &str) -> (r: Result<crate::pattern::NamePattern, CmpError>)
    ensures
        r is Ok <==> crate::pattern::pattern_compiles(pattern@),
        r matches Ok(p) ==> p.pat() == pattern@,
        r matches Err(e) ==> (e matches CmpError::BadPattern { pattern: p, .. } && p@ == pattern@),
{
    match crate::pattern::NamePattern::compile(pattern) {
        Ok(p) => Ok(p),
        Err(e) => {
            let msg = crate::pattern::describe_regex_error(&e);
            Err(CmpError::BadPattern { pattern: pattern.to_owned(), message: msg })
        },
    }
}

/// The pattern text an optional pattern argument carries.
pub open spec fn opt_pat(o: Option<String>) -> Option<Seq<char>> {
    match o {
        Some(s) => Some(s@),
        None => None,
    }
}

/// `g_new` is `g_old` with every record's name put through the pattern,
/// measurements untouched; without a pattern nothing changes, and a name
/// the pattern does not match anywhere stays unchanged.
pub open spec fn stripped_group(
    g_old: GroupModel,
    pat: Option<Seq<char>>,
    g_new: GroupModel,
) -> bool {
    &&& g_new.name == g_old.name
    &&& g_new.records.len() == g_old.records.len()
    &&& forall|k: int|
        0 <= k < g_old.records.len() ==> (#[trigger] g_new.records[k]) == (match pat {
            Some(p) => (BenchModel {
                name: crate::pattern::replaced(p, g_old.records[k].name),
                ..g_old.records[k]
            }),
            None => g_old.records[k],
        })
    &&& forall|k: int|
        0 <= k < g_old.records.len() ==> (match pat {
            Some(p) => !crate::pattern::has_match(p, (#[trigger] g_old.records[k]).name)
                ==> g_new.records[k] == g_old.records[k],
            None => true,
        })
}

/// Puts every record's display name of one group through the pattern.
fn strip_group(nb: Benchmarks, re: &crate::pattern::NamePattern) -> (r: Benchmarks)
    ensures
        stripped_group(nb@, Some(re.pat()), r@),
{
    let ghost gm = nb@;
    let name = nb.name;
    let mut rest = nb.benchmarks;
    let mut done: Vec<Benchmark> = Vec::new();
    proof {
        assert(crate::benchmark::models_of(rest@) == gm.records);
    }
    while rest.len() > 0
        invariant
            rest@.len() <= gm.records.len(),
            crate::benchmark::models_of(rest@) == gm.records.skip(
                gm.records.len() - rest@.len(),
            ),
            done@.len() == gm.records.len() - rest@.len(),
            forall|k: int|
                0 <= k < done@.len() ==> (#[trigger] done@[k]@) == (BenchModel {
                    name: crate::pattern::replaced(re.pat(), gm.records[k].name),
                    ..gm.records[k]
                }),
            forall|k: int|
                0 <= k < done@.len() ==> (!crate::pattern::has_match(
                    re.pat(),
                    (#[trigger] gm.records[k]).name,
                ) ==> done@[k]@ == gm.records[k]),
        decreases rest@.len(),
    {
        let ghost k = gm.records.len() - rest@.len();
        let mut b = rest.remove(0);
        proof {
            assert(crate::benchmark::models_of(rest@) =~= gm.records.skip(k).skip(1));
            assert(gm.records.skip(k).skip(1) =~= gm.records.skip(k + 1));
            assert(gm.records.skip(k)[0] == gm.records[k]);
            assert(b@ == gm.records[k]);
        }
        b.filter_name(re);
        done.push(b);
    }
    let r = Benchmarks { name, benchmarks: done };
    proof {
        assert(r@.records.len() == gm.records.len());
        assert forall|k: int| 0 <= k < gm.records.len() implies (#[trigger] r@.records[k])
            == (BenchModel {
            name: crate::pattern::replaced(re.pat(), gm.records[k].name),
            ..gm.records[k]
        }) by {
            assert(r@.records[k] == done@[k]@);
        }
        assert forall|k: int|
            0 <= k < gm.records.len() implies (!crate::pattern::has_match(
            re.pat(),
            (#[trigger] gm.records[k]).name,
        ) ==> r@.records[k] == gm.records[k]) by {
            assert(r@.records[k] == done@[k]@);
        }
    }
    r
}

/// Strips the two compared groups' benchmark names, the first with the
/// first pattern and the second with the second. An invalid pattern is a
/// configuration error, reported before any record is touched; without
/// patterns nothing changes.
pub fn strip_bench_names(
    nbs: Vec<Benchmarks>,
    strip_fst: &Option<String>,
    strip_snd: &Option<String>,
) -> (r: Result<Vec<Benchmarks>, CmpError>)
    requires
        nbs@.len() == 2,
    ensures
        r is Ok <==> ((strip_fst matches Some(s) ==> crate::pattern::pattern_compiles(s@)) && (
        strip_snd matches Some(s) ==> crate::pattern::pattern_compiles(s@))),
        r matches Ok(v) ==> v@.len() == 2 && stripped_group(nbs@[0]@, opt_pat(*strip_fst), v@[0]@)
            && stripped_group(nbs@[1]@, opt_pat(*strip_snd), v@[1]@),
        r matches Err(e) ==> (e matches CmpError::BadPattern { pattern, .. }
            && !crate::pattern::pattern_compiles(pattern@) && ((strip_fst matches Some(s) && s@
            == pattern@) || (strip_snd matches Some(s) && s@ == pattern@))),
{
    let re_fst = match strip_fst {
        Some(s) => match compile_pattern(s.as_str()) {
            Ok(p) => Some(p),
            Err(e) => {
                return Err(e);
            },
        },
        None => None,
    };
    let re_snd = match strip_snd {
        Some(s) => match compile_pattern(s.as_str()) {
            Ok(p) => Some(p),
            Err(e) => {
                return Err(e);
            },
        },
        None => None,
    };
    let mut work = nbs;
    let g1 = work.remove(1);
    let g0 = work.remove(0);
    let ghost m0 = g0@;
    let ghost m1 = g1@;
    let g0 = match &re_fst {
        Some(p) => strip_group(g0, p),
        None => g0,
    };
    let g1 = match &re_snd {
        Some(p) => strip_group(g1, p),
        None => g1,
    };
    let mut v: Vec<Benchmarks> = Vec::new();
    v.push(g0);
    v.push(g1);
    proof {
        let p0: Option<Seq<char>> = match re_fst {
            Some(p) => Some(p.pat()),
            None => None,
        };
        let p1: Option<Seq<char>> = match re_snd {
            Some(p) => Some(p.pat()),
            None => None,
        };
        assert(stripped_group(m0, p0, v@[0]@)) by {
            if p0 is None {
                assert(m0.records =~= v@[0]@.records);
            }
        }
        assert(stripped_group(m1, p1, v@[1]@)) by {
            if p1 is None {
                assert(m1.records =~= v@[1]@.records);
            }
        }
        assert(p0 == opt_pat(*strip_fst));
        assert(p1 == opt_pat(*strip_snd));
        assert(stripped_group(nbs@[0]@, opt_pat(*strip_fst), v@[0]@));
        assert(stripped_group(nbs@[1]@, opt_pat(*strip_snd), v@[1]@));
    }
    Ok(v)
}

/// Whether a computed comparison is worth showing: a set threshold
/// excludes a smaller truncated absolute percentage, showing only
/// regressions excludes differences that are not positive, and showing
/// only improvements excludes differences that are not negative.
pub open spec fn spec_include(
    c: crate::benchmark::ComparisonModel,
    threshold: Option<u8>,
    show: crate::cmd::Show,
) -> bool {
    !((threshold matches Some(t) && crate::benchmark::spec_abs_percent(c.diff_ns, c.fst.ns) < t)
        || (show == crate::cmd::Show::Regressions && c.diff_ns <= 0) || (show
        == crate::cmd::Show::Improvements && c.diff_ns >= 0))
}

/// Decides whether a comparison is included in the final output.
pub fn include_comparison(
    c: &crate::benchmark::Comparison,
    threshold: Option<u8>,
    show: crate::cmd::Show,
) -> (r: bool)
    requires
        c.wf(),
    ensures
        r == spec_include(c@, threshold, show),
{
    let trunc_abs_per = c.trunc_abs_percent();
    let excluded = (match threshold {
        Some(t) => trunc_abs_per < t,
        None => false,
    }) || (show == crate::cmd::Show::Regressions && c.diff_ns <= 0) || (show
        == crate::cmd::Show::Improvements && c.diff_ns >= 0);
    !excluded
}

/// The comparison a group's first two columns make.
pub open spec fn model_compare(m: CmpGroupModel) -> crate::benchmark::ComparisonModel {
    crate::benchmark::ComparisonModel {
        fst: m.assocs[0].1,
        snd: m.assocs[1].1,
        diff_ns: m.assocs[1].1.ns - m.assocs[0].1.ns,
    }
}

/// The rows of the table: one per included comparison, in order.
pub open spec fn spec_table_rows(
    ms: Seq<CmpGroupModel>,
    variance: bool,
    threshold: Option<u8>,
    show: crate::cmd::Show,
) -> Seq<Seq<Seq<char>>>
    decreases ms.len(),
{
    if ms.len() == 0 {
        Seq::empty()
    } else {
        spec_table_rows(ms.drop_last(), variance, threshold, show) + (if spec_include(
            model_compare(ms.last()),
            threshold,
            show,
        ) {
            seq![crate::benchmark::row_str(model_compare(ms.last()), variance)]
        } else {
            Seq::<Seq<Seq<char>>>::empty()
        })
    }
}

/// The views of a sequence of rows.
pub open spec fn rows_models(v: Seq<Vec<String>>) -> Seq<Seq<Seq<char>>> {
    v.map_values(|r: Vec<String>| views_of(r@))
}

/// Renders the data rows of the table: each comparison of the first
/// against the second column, filtered by threshold and show mode.
pub fn table_rows(
    pairs: &Vec<Comparisons>,
    variance: bool,
    threshold: Option<u8>,
    show: crate::cmd::Show,
) -> (rows: Vec<Vec<String>>)
    requires
        forall|i: int| 0 <= i < pairs@.len() ==> (#[trigger] pairs@[i]).assocs@.len() >= 2,
    ensures
        rows_models(rows@) == spec_table_rows(cmp_models_of(pairs@), variance, threshold, show),
{
    let ghost pm = cmp_models_of(pairs@);
    let mut rows: Vec<Vec<String>> = Vec::new();
    let n = pairs.len();
    let mut i: usize = 0;
    proof {
        assert(pm.take(0) =~= Seq::<CmpGroupModel>::empty());
        assert(rows_models(rows@) =~= spec_table_rows(pm.take(0), variance, threshold, show));
    }
    while i < n
        invariant
            i <= n,
            n == pairs@.len(),
            pm == cmp_models_of(pairs@),
            forall|j: int| 0 <= j < pairs@.len() ==> (#[trigger] pairs@[j]).assocs@.len() >= 2,
            rows_models(rows@) == spec_table_rows(pm.take(i as int), variance, threshold, show),
        decreases n - i,
    {
        proof {
            assert(pm[i as int] == pairs@[i as int]@);
            assert(pm.take(i + 1).drop_last() =~= pm.take(i as int));
            assert(pm.take(i + 1).last() == pm[i as int]);
            assert(pairs@[i as int]@.assocs.len() == pairs@[i as int].assocs@.len());
        }
        let comparison = pairs[i].compare(0, 1);
        proof {
            assert(comparison@ =~= model_compare(pm[i as int]));
        }
        if include_comparison(&comparison, threshold, show) {
            let row = comparison.to_row(variance);
            let ghost old_rows = rows@;
            rows.push(row);
            proof {
                assert(rows_models(rows@) =~= rows_models(old_rows).push(views_of(row@)));
            }
        }
        i += 1;
    }
    proof {
        assert(pm.take(n as int) =~= pm);
    }
    rows
}

/// The name with every `::` replaced by `..`, making it filesystem-safe.
pub open spec fn dedot(s: Seq<char>) -> Seq<char>
    decreases s.len(),
{
    if s.len() < 2 {
        s
    } else if s[0] == ':' && s[1] == ':' {
        seq!['.', '.'] + dedot(s.skip(2))
    } else {
        seq![s[0]] + dedot(s.skip(1))
    }
}

/// The file a chart for this benchmark is written to: the name with its
/// qualifier separators made filesystem-safe, plus the format's
/// extension.
pub fn chart_file_name(name: &str, format: crate::cmd::OutputFormat) -> (r: String)
    ensures
        r@ == dedot(name@) + "."@ + crate::cmd::format_ext(format),
{
    let n = name.unicode_len();
    let mut out = String::new();
    let mut i: usize = 0;
    proof {
        assert(name@.skip(0) =~= name@);
        assert(out@ + dedot(name@) =~= dedot(name@));
    }
    while i < n
        invariant
            i <= n,
            n == name@.len(),
            out@ + dedot(name@.skip(i as int)) == dedot(name@),
        decreases n - i,
    {
        let ghost rest = name@.skip(i as int);
        let c = name.get_char(i);
        proof {
            assert(rest[0] == name@[i as int]);
        }
        if c == ':' && i + 1 < n && name.get_char(i + 1) == ':' {
            proof {
                assert(rest[1] == name@[i + 1]);
                assert(rest.skip(2) =~= name@.skip(i + 2));
                assert((out@ + seq!['.', '.']) + dedot(name@.skip(i + 2)) =~= out@ + (seq![
                    '.',
                    '.',
                ] + dedot(name@.skip(i + 2))));
            }
            crate::text::push_char(&mut out, '.');
            crate::text::push_char(&mut out, '.');
            i += 2;
        } else {
            proof {
                if rest.len() >= 2 {
                    assert(rest[1] == name@[i + 1]);
                }
                assert(rest.skip(1) =~= name@.skip(i + 1));
                if rest.len() == 1 {
                    assert(rest.skip(1) =~= Seq::<char>::empty());
                    assert(dedot(rest) =~= seq![rest[0]] + dedot(rest.skip(1)));
                }
                assert((out@ + seq![rest[0]]) + dedot(name@.skip(i + 1)) =~= out@ + (seq![
                    rest[0],
                ] + dedot(name@.skip(i + 1))));
            }
            crate::text::push_char(&mut out, c);
            i += 1;
        }
    }
    proof {
        assert(name@.skip(n as int) =~= Seq::<char>::empty());
    }
    out.append(".");
    let e = format.extension();
    out.append(e.as_str());
    out
}

/// Module split invariant: a name containing `::` splits at the first
/// occurrence into the module — what stands before it — and the leaf —
/// the remainder; a name without `::` has the empty module and is its own
/// leaf.
pub proof fn lemma_module_split(name: Seq<char>)
    ensures
        sep_pos(name) matches Some(i) ==> name[i as int] == ':' && name[i as int + 1] == ':' && (
        forall|j: int| 0 <= j < i ==> !(#[trigger] name[j] == ':' && name[j + 1] == ':'))
            && module_of(name) == name.take(i as int) && leaf_of(name) == name.skip(i as int + 2)
            && name == module_of(name) + seq![':', ':'] + leaf_of(name),
        sep_pos(name) is None ==> module_of(name) == Seq::<char>::empty() && leaf_of(name) == name
            && (forall|j: int|
            0 <= j && j + 1 < name.len() ==> !(#[trigger] name[j] == ':' && name[j + 1] == ':')),
{
    lemma_first_separator(name);
    if let Some(i) = sep_pos(name) {
        assert(name =~= name.take(i as int) + seq![':', ':'] + name.skip(i as int + 2));
    }
}

/// Show-mode exclusivity: a zero-delta comparison is excluded when only
/// regressions or only improvements are shown, and included under `Both`
/// when no threshold is set.
pub proof fn lemma_show_exclusivity(c: crate::benchmark::ComparisonModel, threshold: Option<u8>)
    requires
        c.diff_ns == 0,
    ensures
        !spec_include(c, threshold, crate::cmd::Show::Regressions),
        !spec_include(c, threshold, crate::cmd::Show::Improvements),
        threshold is None ==> spec_include(c, None, crate::cmd::Show::Both),
{
}

/// A key some pair carries filters to at least one value.
proof fn lemma_key_filter_present<M>(pairs: Seq<(Seq<char>, M)>, key: Seq<char>)
    requires
        key_present(pairs, key),
    ensures
        key_filter(pairs, key).len() >= 1,
    decreases pairs.len(),
{
    if pairs.last().0 == key {
    } else {
        let l = choose|l: int| 0 <= l < pairs.len() && (#[trigger] pairs[l]).0 == key;
        assert(pairs.drop_last()[l] == pairs[l]);
        lemma_key_filter_present(pairs.drop_last(), key);
    }
}

/// A key at most one pair carries filters to at most one value.
proof fn lemma_key_filter_unique<M>(pairs: Seq<(Seq<char>, M)>, key: Seq<char>)
    requires
        forall|l1: int, l2: int|
            0 <= l1 < pairs.len() && 0 <= l2 < pairs.len() && (#[trigger] pairs[l1]).0 == key && (
            #[trigger] pairs[l2]).0 == key ==> l1 == l2,
    ensures
        key_filter(pairs, key).len() <= 1,
    decreases pairs.len(),
{
    if pairs.len() > 0 {
        let d = pairs.drop_last();
        assert(forall|l: int| 0 <= l < d.len() ==> #[trigger] d[l] == pairs[l]);
        if pairs.last().0 == key {
            assert forall|l: int| 0 <= l < d.len() implies (#[trigger] d[l]).0 != key by {
                if d[l].0 == key {
                    assert(pairs[l].0 == key && pairs[pairs.len() - 1].0 == key);
                }
            }
            lemma_key_filter_absent(d, key);
        } else {
            lemma_key_filter_unique(d, key);
        }
    }
}

/// Two distinct positions of a name-sorted group list hold different
/// names.
proof fn lemma_sorted_cmp_distinct(ms: Seq<CmpGroupModel>, i: int, j: int)
    requires
        sorted_cmp_names(ms),
        0 <= i < ms.len(),
        0 <= j < ms.len(),
        i != j,
    ensures
        ms[i].bench_name != ms[j].bench_name,
{
    if ms[i].bench_name == ms[j].bench_name {
        crate::text::lemma_lex_irrefl(ms[i].bench_name);
    }
}

/// Unmatched reporting: a benchmark name carried by exactly one record
/// across all sources stands in exactly one single group and in no
/// matched group.
pub proof fn lemma_unmatched_reported(
    pairs: Seq<(Seq<char>, (Seq<char>, BenchModel))>,
    matched: Seq<CmpGroupModel>,
    singles: Seq<CmpGroupModel>,
    k: Seq<char>,
)
    requires
        joined(pairs, matched, singles),
        exists|l: int| 0 <= l < pairs.len() && (#[trigger] pairs[l]).0 == k,
        forall|l1: int, l2: int|
            0 <= l1 < pairs.len() && 0 <= l2 < pairs.len() && (#[trigger] pairs[l1]).0 == k && (
            #[trigger] pairs[l2]).0 == k ==> l1 == l2,
    ensures
        exists|i: int| 0 <= i < singles.len() && (#[trigger] singles[i]).bench_name == k,
        forall|i1: int, i2: int|
            0 <= i1 < singles.len() && 0 <= i2 < singles.len() && (#[trigger] singles[i1]).bench_name
                == k && (#[trigger] singles[i2]).bench_name == k ==> i1 == i2,
        forall|i: int| 0 <= i < matched.len() ==> (#[trigger] matched[i]).bench_name != k,
{
    lemma_key_filter_present(pairs, k);
    lemma_key_filter_unique(pairs, k);
    assert forall|i: int| 0 <= i < matched.len() implies (#[trigger] matched[i]).bench_name
        != k by {
        if matched[i].bench_name == k {
            assert(matched[i].assocs == key_filter(pairs, k));
        }
    }
    let l = choose|l: int| 0 <= l < pairs.len() && (#[trigger] pairs[l]).0 == k;
    assert(cmp_name_present(matched, k) || cmp_name_present(singles, k));
    assert(!cmp_name_present(matched, k)) by {
        if cmp_name_present(matched, k) {
            let i = choose|i: int|
                0 <= i < matched.len() && (#[trigger] matched[i]).bench_name == k;
        }
    }
    assert forall|i1: int, i2: int|
        0 <= i1 < singles.len() && 0 <= i2 < singles.len() && (#[trigger] singles[i1]).bench_name
            == k && (#[trigger] singles[i2]).bench_name == k implies i1 == i2 by {
        if i1 != i2 {
            lemma_sorted_cmp_distinct(singles, i1, i2);
        }
    }
}

/// Two name-sorted lists whose groups are pinned by their names and which
/// carry the same names are equal.
proof fn lemma_sorted_unique(
    pairs: Seq<(Seq<char>, (Seq<char>, BenchModel))>,
    a: Seq<CmpGroupModel>,
    b: Seq<CmpGroupModel>,
)
    requires
        sorted_cmp_names(a),
        sorted_cmp_names(b),
        forall|i: int|
            0 <= i < a.len() ==> (#[trigger] a[i]).assocs == key_filter(pairs, a[i].bench_name),
        forall|i: int|
            0 <= i < b.len() ==> (#[trigger] b[i]).assocs == key_filter(pairs, b[i].bench_name),
        forall|k: Seq<char>| #[trigger] cmp_name_present(a, k) <==> cmp_name_present(b, k),
    ensures
        a == b,
    decreases a.len(),
{
    if a.len() == 0 {
        if b.len() > 0 {
            assert(cmp_name_present(b, b[0].bench_name));
            assert(cmp_name_present(a, b[0].bench_name));
            let i = choose|i: int| 0 <= i < a.len() && (#[trigger] a[i]).bench_name == b[0].bench_name;
            assert(false);
        }
        assert(a =~= b);
    } else if b.len() == 0 {
        assert(cmp_name_present(a, a[0].bench_name));
        let i = choose|i: int| 0 <= i < b.len() && (#[trigger] b[i]).bench_name == a[0].bench_name;
        assert(false);
    } else {
        assert(cmp_name_present(a, a[0].bench_name));
        assert(cmp_name_present(b, a[0].bench_name));
        let j = choose|j: int| 0 <= j < b.len() && (#[trigger] b[j]).bench_name == a[0].bench_name;
        assert(cmp_name_present(b, b[0].bench_name));
        assert(cmp_name_present(a, b[0].bench_name));
        let i = choose|i: int| 0 <= i < a.len() && (#[trigger] a[i]).bench_name == b[0].bench_name;
        if a[0].bench_name != b[0].bench_name {
            assert(j > 0);
            assert(i > 0);
            assert(lex_lt(a[0].bench_name, a[i].bench_name));
            assert(lex_lt(b[0].bench_name, b[j].bench_name));
            crate::text::lemma_lex_trans(a[0].bench_name, b[0].bench_name, a[0].bench_name);
            crate::text::lemma_lex_irrefl(a[0].bench_name);
            assert(false);
        }
        assert(a[0] =~= b[0]);
        let at = a.skip(1);
        let bt = b.skip(1);
        assert(forall|i2: int| 0 <= i2 < at.len() ==> #[trigger] at[i2] == a[i2 + 1]);
        assert(forall|i2: int| 0 <= i2 < bt.len() ==> #[trigger] bt[i2] == b[i2 + 1]);
        assert forall|k: Seq<char>| #[trigger]
            cmp_name_present(at, k) implies cmp_name_present(bt, k) by {
            let i2 = choose|i2: int| 0 <= i2 < at.len() && (#[trigger] at[i2]).bench_name == k;
            assert(cmp_name_present(a, k));
            lemma_sorted_cmp_distinct(a, 0, i2 + 1);
            assert(cmp_name_present(b, k));
            let j2 = choose|j2: int| 0 <= j2 < b.len() && (#[trigger] b[j2]).bench_name == k;
            assert(j2 > 0);
            assert(bt[j2 - 1].bench_name == k);
        }
        assert forall|k: Seq<char>|
            cmp_name_present(bt, k) implies #[trigger] cmp_name_present(at, k) by {
            let j2 = choose|j2: int| 0 <= j2 < bt.len() && (#[trigger] bt[j2]).bench_name == k;
            assert(cmp_name_present(b, k));
            lemma_sorted_cmp_distinct(b, 0, j2 + 1);
            assert(cmp_name_present(a, k));
            let i2 = choose|i2: int| 0 <= i2 < a.len() && (#[trigger] a[i2]).bench_name == k;
            assert(i2 > 0);
            assert(at[i2 - 1].bench_name == k);
        }
        lemma_sorted_unique(pairs, at, bt);
        assert forall|i2: int| 0 <= i2 < a.len() implies a[i2] == b[i2] by {
            if i2 > 0 {
                assert(at[i2 - 1] == bt[i2 - 1]);
            }
        }
        assert(a =~= b);
    }
}

/// Join determinism: two outputs of the joiner on the same flattened
/// records are identical — the same matched groups in the same order, and
/// the same single groups in the same order.
pub proof fn lemma_join_deterministic(
    pairs: Seq<(Seq<char>, (Seq<char>, BenchModel))>,
    m1: Seq<CmpGroupModel>,
    s1: Seq<CmpGroupModel>,
    m2: Seq<CmpGroupModel>,
    s2: Seq<CmpGroupModel>,
)
    requires
        joined(pairs, m1, s1),
        joined(pairs, m2, s2),
    ensures
        m1 == m2,
        s1 == s2,
{
    assert forall|k: Seq<char>| #[trigger]
        cmp_name_present(m1, k) implies cmp_name_present(m2, k) by {
        let i = choose|i: int| 0 <= i < m1.len() && (#[trigger] m1[i]).bench_name == k;
        let l = choose|l: int| 0 <= l < pairs.len() && (#[trigger] pairs[l]).0 == k;
        assert(cmp_name_present(m2, k) || cmp_name_present(s2, k));
        if cmp_name_present(s2, k) {
            let j = choose|j: int| 0 <= j < s2.len() && (#[trigger] s2[j]).bench_name == k;
            assert(s2[j].assocs == key_filter(pairs, k));
            assert(m1[i].assocs == key_filter(pairs, k));
            assert(false);
        }
    }
    assert forall|k: Seq<char>|
        cmp_name_present(m2, k) implies #[trigger] cmp_name_present(m1, k) by {
        let i = choose|i: int| 0 <= i < m2.len() && (#[trigger] m2[i]).bench_name == k;
        let l = choose|l: int| 0 <= l < pairs.len() && (#[trigger] pairs[l]).0 == k;
        assert(cmp_name_present(m1, k) || cmp_name_present(s1, k));
        if cmp_name_present(s1, k) {
            let j = choose|j: int| 0 <= j < s1.len() && (#[trigger] s1[j]).bench_name == k;
            assert(s1[j].assocs == key_filter(pairs, k));
            assert(m2[i].assocs == key_filter(pairs, k));
            assert(false);
        }
    }
    lemma_sorted_unique(pairs, m1, m2);
    assert forall|k: Seq<char>| #[trigger]
        cmp_name_present(s1, k) implies cmp_name_present(s2, k) by {
        let i = choose|i: int| 0 <= i < s1.len() && (#[trigger] s1[i]).bench_name == k;
        let l = choose|l: int| 0 <= l < pairs.len() && (#[trigger] pairs[l]).0 == k;
        assert(cmp_name_present(m2, k) || cmp_name_present(s2, k));
        if cmp_name_present(m2, k) {
            let j = choose|j: int| 0 <= j < m2.len() && (#[trigger] m2[j]).bench_name == k;
            assert(m2[j].assocs == key_filter(pairs, k));
            assert(s1[i].assocs == key_filter(pairs, k));
            assert(false);
        }
    }
    assert forall|k: Seq<char>|
        cmp_name_present(s2, k) implies #[trigger] cmp_name_present(s1, k) by {
        let i = choose|i: int| 0 <= i < s2.len() && (#[trigger] s2[i]).bench_name == k;
        let l = choose|l: int| 0 <= l < pairs.len() && (#[trigger] pairs[l]).0 == k;
        assert(cmp_name_present(m1, k) || cmp_name_present(s1, k));
        if cmp_name_present(m1, k) {
            let j = choose|j: int| 0 <= j < m1.len() && (#[trigger] m1[j]).bench_name == k;
            assert(m1[j].assocs == key_filter(pairs, k));
            assert(s2[i].assocs == key_filter(pairs, k));
            assert(false);
        }
    }
    lemma_sorted_unique(pairs, s1, s2);
}

} // verus!
