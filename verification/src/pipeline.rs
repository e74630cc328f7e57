//! Depth-bucketed merging: files are grouped by the depth of their path,
//! groups are processed in ascending depth order, and inside one group files
//! keep their input order (the deterministic tie-break among siblings).
//! Repeated top-level keys inside one depth group yield a collision
//! diagnostic; the merge itself never fails.

use vstd::prelude::*;
use crate::value::{
    ConfigValue, SpecConfig, entries_view, lemma_config_view_variants, lemma_entries_view,
};
use crate::merge::{deep_merge, lemma_deep_merge_mapping, spec_deep_merge};
use crate::paths::{path_depth, spec_depth, string_views};
use crate::load::{ConfigFile, LoadError, SourceFile, parse_yaml_configs, yaml_doc};

verus! {

/// The mathematical value of a parsed file: its path and its tree.
pub struct SpecConfigFile {
    pub path: Seq<char>,
    pub value: SpecConfig,
}

impl View for ConfigFile {
    type V = SpecConfigFile;

    open spec fn view(&self) -> SpecConfigFile {
        SpecConfigFile { path: self.path@, value: self.value@ }
    }
}

/// The views of a sequence of parsed files.
pub open spec fn file_views(s: Seq<ConfigFile>) -> Seq<SpecConfigFile> {
    s.map_values(|f: ConfigFile| f@)
}

/// The decimal digit character for `d`.
pub open spec fn spec_digit(d: nat) -> char {
    if d == 0 {
        '0'
    } else if d == 1 {
        '1'
    } else if d == 2 {
        '2'
    } else if d == 3 {
        '3'
    } else if d == 4 {
        '4'
    } else if d == 5 {
        '5'
    } else if d == 6 {
        '6'
    } else if d == 7 {
        '7'
    } else if d == 8 {
        '8'
    } else {
        '9'
    }
}

/// The decimal rendering of `n`, most significant digit first.
pub open spec fn spec_decimal(n: nat) -> Seq<char>
    decreases n,
{
    if n < 10 {
        seq![spec_digit(n)]
    } else {
        spec_decimal(n / 10).push(spec_digit(n % 10))
    }
}

/// The one-character string of a decimal digit.
fn digit_str(d: usize) -> (r: &'static str)
    requires
        d < 10,
    ensures
        r@ == seq![spec_digit(d as nat)],
{
    proof {
        reveal_strlit("0");
        reveal_strlit("1");
        reveal_strlit("2");
        reveal_strlit("3");
        reveal_strlit("4");
        reveal_strlit("5");
        reveal_strlit("6");
        reveal_strlit("7");
        reveal_strlit("8");
        reveal_strlit("9");
    }
    let r = if d == 0 {
        "0"
    } else if d == 1 {
        "1"
    } else if d == 2 {
        "2"
    } else if d == 3 {
        "3"
    } else if d == 4 {
        "4"
    } else if d == 5 {
        "5"
    } else if d == 6 {
        "6"
    } else if d == 7 {
        "7"
    } else if d == 8 {
        "8"
    } else {
        "9"
    };
    proof {
        assert(r@ =~= seq![spec_digit(d as nat)]);
    }
    r
}

/// Renders `n` in decimal.
pub fn decimal_string(n: usize) -> (r: String)
    ensures
        r@ == spec_decimal(n as nat),
    decreases n,
{
    if n < 10 {
        digit_str(n).to_owned()
    } else {
        let mut s = decimal_string(n / 10);
        s.append(digit_str(n % 10));
        proof {
            assert(spec_decimal((n / 10) as nat) + seq![spec_digit((n % 10) as nat)]
                =~= spec_decimal(n as nat));
        }
        s
    }
}

/// The collision diagnostic for one repeated key.
pub open spec fn spec_collision_message(
    depth: int,
    key: Seq<char>,
    first: Seq<char>,
    second: Seq<char>,
) -> Seq<char> {
    "Key collision at depth "@ + spec_decimal(depth as nat) + ": '"@ + key
        + "' found in both "@ + first + " and "@ + second
}

/// Builds the collision diagnostic for one repeated key.
pub fn collision_message(depth: usize, key: &str, first: &str, second: &str) -> (r: String)
    ensures
        r@ == spec_collision_message(depth as int, key@, first@, second@),
{
    let mut m = "Key collision at depth ".to_owned();
    m.append(decimal_string(depth).as_str());
    m.append(": '");
    m.append(key);
    m.append("' found in both ");
    m.append(first);
    m.append(" and ");
    m.append(second);
    proof {
        assert(m@ =~= spec_collision_message(depth as int, key@, first@, second@));
    }
    m
}

/// The diagnostic for a hierarchy that holds no configuration file.
pub open spec fn spec_no_files_message(base: Seq<char>, target: Seq<char>) -> Seq<char> {
    "No YAML files found in hierarchy from "@ + base + " to "@ + target
}

/// Builds the no-files diagnostic.
pub fn no_files_message(base_dir: &str, target_path: &str) -> (r: String)
    ensures
        r@ == spec_no_files_message(base_dir@, target_path@),
{
    let mut m = "No YAML files found in hierarchy from ".to_owned();
    m.append(base_dir);
    m.append(" to ");
    m.append(target_path);
    proof {
        assert(m@ =~= spec_no_files_message(base_dir@, target_path@));
    }
    m
}

/// The depth of a file: the component count of its full path.
pub open spec fn file_depth(f: SpecConfigFile) -> int {
    spec_depth(f.path)
}

/// The least depth among the files (0 when there are none).
pub open spec fn spec_min_depth(fs: Seq<SpecConfigFile>) -> int
    decreases fs.len(),
{
    if fs.len() == 0 {
        0
    } else if fs.len() == 1 {
        file_depth(fs[0])
    } else {
        let rest = spec_min_depth(fs.drop_first());
        if file_depth(fs[0]) <= rest {
            file_depth(fs[0])
        } else {
            rest
        }
    }
}

/// The least depth is attained and bounds every file.
pub proof fn lemma_min_depth(fs: Seq<SpecConfigFile>)
    requires
        fs.len() > 0,
    ensures
        exists|i: int| 0 <= i < fs.len() && file_depth(#[trigger] fs[i]) == spec_min_depth(fs),
        forall|i: int| 0 <= i < fs.len() ==> file_depth(#[trigger] fs[i]) >= spec_min_depth(fs),
    decreases fs.len(),
{
    if fs.len() == 1 {
        assert(file_depth(fs[0]) == spec_min_depth(fs));
    }
    if fs.len() > 1 {
        lemma_min_depth(fs.drop_first());
        let rest = fs.drop_first();
        assert(forall|i: int| 1 <= i < fs.len() ==> fs[i] == rest[i - 1]);
        if file_depth(fs[0]) <= spec_min_depth(rest) {
            assert(file_depth(fs[0]) == spec_min_depth(fs));
        } else {
            let j = choose|j: int|
                0 <= j < rest.len() && file_depth(#[trigger] rest[j]) == spec_min_depth(rest);
            assert(file_depth(fs[j + 1]) == spec_min_depth(fs));
        }
    }
}

/// A filter that misses at least one element shortens the sequence.
pub proof fn lemma_filter_misses<A>(s: Seq<A>, pred: spec_fn(A) -> bool)
    requires
        exists|i: int| 0 <= i < s.len() && !pred(#[trigger] s[i]),
    ensures
        s.filter(pred).len() < s.len(),
    decreases s.len(),
{
    reveal(Seq::filter);
    let i = choose|i: int| 0 <= i < s.len() && !pred(#[trigger] s[i]);
    if i == s.len() - 1 {
        s.drop_last().lemma_filter_len(pred);
    } else {
        assert(s.drop_last()[i] == s[i]);
        lemma_filter_misses(s.drop_last(), pred);
    }
}

/// The files of depth exactly `d`, in order.
pub open spec fn at_depth(d: int) -> spec_fn(SpecConfigFile) -> bool {
    |f: SpecConfigFile| file_depth(f) == d
}

/// The files of depth above `d`, in order.
pub open spec fn above_depth(d: int) -> spec_fn(SpecConfigFile) -> bool {
    |f: SpecConfigFile| file_depth(f) > d
}

/// The files reordered for merging: grouped by depth, groups ascending,
/// input order kept inside a group.
pub open spec fn spec_depth_order(fs: Seq<SpecConfigFile>) -> Seq<SpecConfigFile>
    decreases fs.len(),
    via spec_depth_order_decreases
{
    if fs.len() == 0 {
        Seq::empty()
    } else {
        let d = spec_min_depth(fs);
        fs.filter(at_depth(d)) + spec_depth_order(fs.filter(above_depth(d)))
    }
}

#[via_fn]
proof fn spec_depth_order_decreases(fs: Seq<SpecConfigFile>) {
    if fs.len() > 0 {
        lemma_min_depth(fs);
        let d = spec_min_depth(fs);
        let i = choose|i: int| 0 <= i < fs.len() && file_depth(#[trigger] fs[i]) == d;
        assert(!above_depth(d)(fs[i]));
        lemma_filter_misses(fs, above_depth(d));
    }
}

/// Left fold of the deep merge over a file sequence.
pub open spec fn spec_merge_fold(acc: SpecConfig, fs: Seq<SpecConfigFile>) -> SpecConfig
    decreases fs.len(),
{
    if fs.len() == 0 {
        acc
    } else {
        spec_merge_fold(spec_deep_merge(acc, fs[0].value), fs.drop_first())
    }
}

/// Folding over a concatenation folds over each part in turn.
pub proof fn lemma_merge_fold_concat(acc: SpecConfig, a: Seq<SpecConfigFile>, b: Seq<SpecConfigFile>)
    ensures
        spec_merge_fold(acc, a + b) == spec_merge_fold(spec_merge_fold(acc, a), b),
    decreases a.len(),
{
    if a.len() == 0 {
        assert(a + b =~= b);
    } else {
        assert((a + b).drop_first() =~= a.drop_first() + b);
        lemma_merge_fold_concat(spec_deep_merge(acc, a[0].value), a.drop_first(), b);
    }
}

/// The merged configuration: the fold of the deep merge, from an empty
/// mapping, over the files in depth order.
pub open spec fn spec_merged_config(fs: Seq<SpecConfigFile>) -> SpecConfig {
    spec_merge_fold(SpecConfig::Mapping(Seq::empty()), spec_depth_order(fs))
}

/// Whether a key was already seen in the current depth group.
pub open spec fn spec_seen_has(seen: Seq<(Seq<char>, Seq<char>)>, k: Seq<char>) -> bool {
    exists|i: int| 0 <= i < seen.len() && (#[trigger] seen[i]).0 == k
}

/// Position of the first record of a seen key.
pub open spec fn spec_seen_index(seen: Seq<(Seq<char>, Seq<char>)>, k: Seq<char>) -> int
    decreases seen.len(),
{
    if seen.len() == 0 {
        0
    } else if seen[0].0 == k {
        0
    } else {
        1 + spec_seen_index(seen.drop_first(), k)
    }
}

/// The file that first contributed a seen key.
pub open spec fn spec_seen_source(seen: Seq<(Seq<char>, Seq<char>)>, k: Seq<char>) -> Seq<char> {
    seen[spec_seen_index(seen, k)].1
}

/// A record at `i` with no earlier record pins `spec_seen_index` to `i`.
pub proof fn lemma_seen_index_first(seen: Seq<(Seq<char>, Seq<char>)>, k: Seq<char>, i: int)
    requires
        0 <= i < seen.len(),
        seen[i].0 == k,
        forall|j: int| 0 <= j < i ==> (#[trigger] seen[j]).0 != k,
    ensures
        spec_seen_has(seen, k),
        spec_seen_index(seen, k) == i,
    decreases i,
{
    if i > 0 {
        let tail = seen.drop_first();
        assert(forall|j: int| 0 <= j < i - 1 ==> (#[trigger] tail[j]) == seen[j + 1]);
        lemma_seen_index_first(tail, k, i - 1);
    }
}

/// The collision scan over one file's top-level entries: string keys not yet
/// seen are recorded with this file as their source; a repeated string key
/// yields one diagnostic naming the first source and this file.
pub open spec fn spec_scan_entries(
    depth: int,
    source: Seq<char>,
    entries: Seq<(SpecConfig, SpecConfig)>,
    seen: Seq<(Seq<char>, Seq<char>)>,
) -> (Seq<(Seq<char>, Seq<char>)>, Seq<Seq<char>>)
    decreases entries.len(),
{
    if entries.len() == 0 {
        (seen, Seq::empty())
    } else if entries[0].0 is Str {
        let k = entries[0].0->Str_0;
        if spec_seen_has(seen, k) {
            let r = spec_scan_entries(depth, source, entries.drop_first(), seen);
            (
                r.0,
                seq![spec_collision_message(depth, k, spec_seen_source(seen, k), source)] + r.1,
            )
        } else {
            spec_scan_entries(depth, source, entries.drop_first(), seen.push((k, source)))
        }
    } else {
        spec_scan_entries(depth, source, entries.drop_first(), seen)
    }
}

/// The collision scan over one file: only a mapping contributes keys.
pub open spec fn spec_scan_file(
    depth: int,
    f: SpecConfigFile,
    seen: Seq<(Seq<char>, Seq<char>)>,
) -> (Seq<(Seq<char>, Seq<char>)>, Seq<Seq<char>>) {
    if f.value is Mapping {
        spec_scan_entries(depth, f.path, f.value->Mapping_0, seen)
    } else {
        (seen, Seq::empty())
    }
}

/// The collision scan over one depth group, files in order.
pub open spec fn spec_scan_group(
    depth: int,
    group: Seq<SpecConfigFile>,
    seen: Seq<(Seq<char>, Seq<char>)>,
) -> (Seq<(Seq<char>, Seq<char>)>, Seq<Seq<char>>)
    decreases group.len(),
{
    if group.len() == 0 {
        (seen, Seq::empty())
    } else {
        let r1 = spec_scan_file(depth, group[0], seen);
        let r2 = spec_scan_group(depth, group.drop_first(), r1.0);
        (r2.0, r1.1 + r2.1)
    }
}

/// Every collision diagnostic, depth groups ascending, discovery order
/// inside a group.
pub open spec fn spec_all_diags(fs: Seq<SpecConfigFile>) -> Seq<Seq<char>>
    decreases fs.len(),
    via spec_all_diags_decreases
{
    if fs.len() == 0 {
        Seq::empty()
    } else {
        let d = spec_min_depth(fs);
        spec_scan_group(d, fs.filter(at_depth(d)), Seq::empty()).1 + spec_all_diags(
            fs.filter(above_depth(d)),
        )
    }
}

#[via_fn]
proof fn spec_all_diags_decreases(fs: Seq<SpecConfigFile>) {
    if fs.len() > 0 {
        lemma_min_depth(fs);
        let d = spec_min_depth(fs);
        let i = choose|i: int| 0 <= i < fs.len() && file_depth(#[trigger] fs[i]) == d;
        assert(!above_depth(d)(fs[i]));
        lemma_filter_misses(fs, above_depth(d));
    }
}

/// The pair views of the seen-key records.
pub open spec fn seen_views(s: Seq<(String, String)>) -> Seq<(Seq<char>, Seq<char>)> {
    s.map_values(|p: (String, String)| (p.0@, p.1@))
}

/// The views of a sequence of file indices taken from `fv`.
pub open spec fn select_views(fv: Seq<SpecConfigFile>, idx: Seq<usize>) -> Seq<SpecConfigFile> {
    idx.map_values(|i: usize| fv[i as int])
}

/// Scans one file's top-level keys for collisions against the keys already
/// seen at this depth, extending `seen` and appending diagnostics to `out`
/// exactly as `spec_scan_file` says.
fn scan_file_collisions(
    depth: usize,
    file: &ConfigFile,
    seen: &mut Vec<(String, String)>,
    out: &mut Vec<String>,
)
    ensures
        ({
            let r = spec_scan_file(depth as int, file@, seen_views(old(seen)@));
            seen_views(final(seen)@) == r.0 && string_views(final(out)@) == string_views(
                old(out)@,
            ) + r.1
        }),
{
    let ghost sv0 = seen_views(seen@);
    let ghost dg0 = string_views(out@);
    let ghost d_int = depth as int;
    proof {
        lemma_config_view_variants(file.value);
    }
    match &file.value {
        ConfigValue::Mapping(entries) => {
            let ghost ev = entries_view(entries@);
            proof {
                lemma_entries_view(entries@);
                assert(file@.value->Mapping_0 == ev);
                assert(ev.skip(0) =~= ev);
                assert(string_views(out@).skip(dg0.len() as int) =~= Seq::<Seq<char>>::empty());
                assert(string_views(out@).take(dg0.len() as int) =~= dg0);
                assert(Seq::<Seq<char>>::empty() + spec_scan_entries(d_int, file@.path, ev, sv0).1
                    =~= spec_scan_entries(d_int, file@.path, ev, sv0).1);
            }
            let mut e: usize = 0;
            #[verifier::loop_isolation(false)]
            while e < entries.len()
                invariant
                    e <= entries@.len(),
                    spec_scan_entries(d_int, file@.path, ev, sv0).0 == spec_scan_entries(
                        d_int,
                        file@.path,
                        ev.skip(e as int),
                        seen_views(seen@),
                    ).0,
                    spec_scan_entries(d_int, file@.path, ev, sv0).1 == string_views(out@).skip(
                        dg0.len() as int,
                    ) + spec_scan_entries(d_int, file@.path, ev.skip(e as int), seen_views(seen@)).1,
                    string_views(out@).take(dg0.len() as int) == dg0,
                    out@.len() >= dg0.len(),
                decreases entries@.len() - e,
            {
                proof {
                    assert(ev.skip(e as int)[0] == ev[e as int]);
                    assert(ev.skip(e as int).drop_first() =~= ev.skip(e + 1));
                    lemma_config_view_variants(entries@[e as int].0);
                }
                match &entries[e].0 {
                    ConfigValue::Str(key) => {
                        let ghost kview = key@;
                        let ghost svnow = seen_views(seen@);
                        let mut hit: Option<usize> = None;
                        let mut s: usize = 0;
                        #[verifier::loop_isolation(false)]
                        while s < seen.len()
                            invariant
                                s <= seen@.len(),
                                hit is None,
                                forall|u: int| 0 <= u < s ==> (#[trigger] svnow[u]).0 != kview,
                            decreases seen@.len() - s,
                        {
                            if seen[s].0.eq(key) {
                                proof {
                                    lemma_seen_index_first(svnow, kview, s as int);
                                }
                                hit = Some(s);
                                break ;
                            }
                            s = s + 1;
                        }
                        match hit {
                            Some(h) => {
                                let ghost dgprev = string_views(out@);
                                let ghost msgv = spec_collision_message(
                                    d_int,
                                    kview,
                                    spec_seen_source(svnow, kview),
                                    file@.path,
                                );
                                let msg = collision_message(
                                    depth,
                                    key.as_str(),
                                    seen[h].1.as_str(),
                                    file.path.as_str(),
                                );
                                out.push(msg);
                                proof {
                                    assert(spec_seen_source(svnow, kview) == seen@[h as int].1@);
                                    assert(string_views(out@) =~= dgprev.push(msgv));
                                    assert(string_views(out@).take(dg0.len() as int)
                                        =~= dgprev.take(dg0.len() as int));
                                    assert(string_views(out@).skip(dg0.len() as int)
                                        =~= dgprev.skip(dg0.len() as int).push(msgv));
                                    assert(dgprev.skip(dg0.len() as int).push(msgv)
                                        + spec_scan_entries(
                                        d_int,
                                        file@.path,
                                        ev.skip(e + 1),
                                        svnow,
                                    ).1 =~= dgprev.skip(dg0.len() as int) + (seq![msgv]
                                        + spec_scan_entries(
                                        d_int,
                                        file@.path,
                                        ev.skip(e + 1),
                                        svnow,
                                    ).1));
                                }
                            },
                            None => {
                                proof {
                                    if spec_seen_has(svnow, kview) {
                                        let w = choose|w: int|
                                            0 <= w < svnow.len() && (#[trigger] svnow[w]).0
                                                == kview;
                                        assert(svnow[w].0 != kview);
                                    }
                                }
                                let ghost svprev = seen_views(seen@);
                                seen.push((key.clone(), file.path.clone()));
                                proof {
                                    assert(seen_views(seen@) =~= svprev.push((kview, file@.path)));
                                }
                            },
                        }
                    },
                    _ => {
                        proof {
                            assert(!(ev[e as int].0 is Str));
                        }
                    },
                }
                e = e + 1;
            }
            proof {
                assert(ev.skip(entries@.len() as int) =~= Seq::<(SpecConfig, SpecConfig)>::empty());
                assert(string_views(out@) =~= string_views(out@).take(dg0.len() as int)
                    + string_views(out@).skip(dg0.len() as int));
            }
        },
        _ => {
            proof {
                assert(!(file@.value is Mapping));
                assert(string_views(out@) =~= dg0 + Seq::<Seq<char>>::empty());
            }
        },
    }
}

/// Scans one depth group, files in order, and returns its collision
/// diagnostics in discovery order.
fn scan_group_collisions(depth: usize, files: &Vec<ConfigFile>, group: &Vec<usize>) -> (r: Vec<
    String,
>)
    requires
        forall|u: int| 0 <= u < group@.len() ==> (#[trigger] group@[u]) < files@.len(),
    ensures
        string_views(r@) == spec_scan_group(
            depth as int,
            select_views(file_views(files@), group@),
            Seq::empty(),
        ).1,
{
    let ghost fv = file_views(files@);
    let ghost gview = select_views(fv, group@);
    let ghost d_int = depth as int;
    let mut seen: Vec<(String, String)> = Vec::new();
    let mut out: Vec<String> = Vec::new();
    proof {
        assert(seen_views(seen@) =~= Seq::<(Seq<char>, Seq<char>)>::empty());
        assert(string_views(out@) =~= Seq::<Seq<char>>::empty());
        assert(gview.skip(0) =~= gview);
        assert(string_views(out@) + spec_scan_group(d_int, gview, Seq::empty()).1
            =~= spec_scan_group(d_int, gview, Seq::empty()).1);
    }
    let mut g: usize = 0;
    #[verifier::loop_isolation(false)]
    while g < group.len()
        invariant
            g <= group@.len(),
            spec_scan_group(d_int, gview, Seq::empty()).0 == spec_scan_group(
                d_int,
                gview.skip(g as int),
                seen_views(seen@),
            ).0,
            spec_scan_group(d_int, gview, Seq::empty()).1 == string_views(out@)
                + spec_scan_group(d_int, gview.skip(g as int), seen_views(seen@)).1,
        decreases group@.len() - g,
    {
        let idx = group[g];
        let ghost dgbefore = string_views(out@);
        let ghost svbefore = seen_views(seen@);
        proof {
            assert(gview[g as int] == fv[group@[g as int] as int]);
            assert(fv[idx as int] == files@[idx as int]@);
        }
        scan_file_collisions(depth, &files[idx], &mut seen, &mut out);
        proof {
            let r1 = spec_scan_file(d_int, gview[g as int], svbefore);
            assert(gview.skip(g as int)[0] == gview[g as int]);
            assert(gview.skip(g as int).drop_first() =~= gview.skip(g + 1));
            assert((dgbefore + r1.1) + spec_scan_group(d_int, gview.skip(g + 1), r1.0).1
                =~= dgbefore + (r1.1 + spec_scan_group(d_int, gview.skip(g + 1), r1.0).1));
        }
        g = g + 1;
    }
    proof {
        assert(gview.skip(group@.len() as int) =~= Seq::<SpecConfigFile>::empty());
    }
    out
}

/// Groups the files by the depth of their paths, reports top-level key
/// collisions inside every depth group, and deep-merges all files onto an
/// initially empty mapping, depth ascending; files at one depth keep their
/// input order (the deterministic tie-break among sibling files). Returns
/// the merged tree and the collision diagnostics in discovery order; this
/// stage itself never fails.
pub fn merge_configs_by_depth(files: &Vec<ConfigFile>) -> (r: (ConfigValue, Vec<String>))
    ensures
        r.0@ == spec_merged_config(file_views(files@)),
        string_views(r.1@) == spec_all_diags(file_views(files@)),
{
    let ghost fv = file_views(files@);
    let mut depths: Vec<usize> = Vec::new();
    let mut i: usize = 0;
    #[verifier::loop_isolation(false)]
    while i < files.len()
        invariant
            i <= files@.len(),
            depths@.len() == i,
            forall|k: int| 0 <= k < i ==> (#[trigger] depths@[k]) as int == file_depth(fv[k]),
        decreases files@.len() - i,
    {
        depths.push(path_depth(files[i].path.as_str()));
        i = i + 1;
    }
    let mut remaining: Vec<usize> = Vec::new();
    let mut j: usize = 0;
    #[verifier::loop_isolation(false)]
    while j < files.len()
        invariant
            j <= files@.len(),
            remaining@.len() == j,
            forall|k: int| 0 <= k < j ==> (#[trigger] remaining@[k]) == k,
        decreases files@.len() - j,
    {
        remaining.push(j);
        j = j + 1;
    }
    let mut merged = ConfigValue::Mapping(Vec::new());
    let mut diags: Vec<String> = Vec::new();
    let ghost mut done_order: Seq<SpecConfigFile> = Seq::empty();
    let ghost mut done_diags: Seq<Seq<char>> = Seq::empty();
    proof {
        assert(select_views(fv, remaining@) =~= fv);
        assert(entries_view(Seq::<(ConfigValue, ConfigValue)>::empty()) =~= Seq::<
            (SpecConfig, SpecConfig),
        >::empty());
        assert(done_order + spec_depth_order(fv) =~= spec_depth_order(fv));
        assert(done_diags + spec_all_diags(fv) =~= spec_all_diags(fv));
        assert(string_views(diags@) =~= done_diags);
    }
    #[verifier::loop_isolation(false)]
    while remaining.len() > 0
        invariant
            depths@.len() == files@.len(),
            forall|k: int| 0 <= k < depths@.len() ==> (#[trigger] depths@[k]) as int == file_depth(
                fv[k],
            ),
            forall|t: int| 0 <= t < remaining@.len() ==> (#[trigger] remaining@[t]) < files@.len(),
            spec_depth_order(fv) == done_order + spec_depth_order(select_views(fv, remaining@)),
            spec_all_diags(fv) == done_diags + spec_all_diags(select_views(fv, remaining@)),
            merged@ == spec_merge_fold(SpecConfig::Mapping(Seq::empty()), done_order),
            string_views(diags@) == done_diags,
        decreases remaining@.len(),
    {
        let ghost cur = select_views(fv, remaining@);
        let mut dmin: usize = depths[remaining[0]];
        proof {
            assert(cur[0] == fv[remaining@[0] as int]);
        }
        let mut t: usize = 1;
        #[verifier::loop_isolation(false)]
        while t < remaining.len()
            invariant
                1 <= t <= remaining@.len(),
                exists|u: int| 0 <= u < t && file_depth(#[trigger] cur[u]) == dmin as int,
                forall|u: int| 0 <= u < t ==> file_depth(#[trigger] cur[u]) >= dmin as int,
            decreases remaining@.len() - t,
        {
            let d = depths[remaining[t]];
            proof {
                assert(cur[t as int] == fv[remaining@[t as int] as int]);
                assert(file_depth(cur[t as int]) == d as int);
            }
            if d < dmin {
                dmin = d;
            }
            t = t + 1;
        }
        proof {
            lemma_min_depth(cur);
            let a = choose|u: int|
                0 <= u < cur.len() && file_depth(#[trigger] cur[u]) == dmin as int;
            let b = choose|u: int|
                0 <= u < cur.len() && file_depth(#[trigger] cur[u]) == spec_min_depth(cur);
            assert(file_depth(cur[a]) >= spec_min_depth(cur));
            assert(file_depth(cur[b]) >= dmin as int);
            assert(dmin as int == spec_min_depth(cur));
        }
        let ghost d_int = dmin as int;
        let mut group: Vec<usize> = Vec::new();
        let mut rest: Vec<usize> = Vec::new();
        let mut t2: usize = 0;
        proof {
            reveal(Seq::filter);
            assert(select_views(fv, group@) =~= cur.take(0).filter(at_depth(d_int)));
            assert(select_views(fv, rest@) =~= cur.take(0).filter(above_depth(d_int)));
        }
        #[verifier::loop_isolation(false)]
        while t2 < remaining.len()
            invariant
                t2 <= remaining@.len(),
                forall|u: int| 0 <= u < group@.len() ==> (#[trigger] group@[u]) < files@.len(),
                forall|u: int| 0 <= u < rest@.len() ==> (#[trigger] rest@[u]) < files@.len(),
                select_views(fv, group@) == cur.take(t2 as int).filter(at_depth(d_int)),
                select_views(fv, rest@) == cur.take(t2 as int).filter(above_depth(d_int)),
            decreases remaining@.len() - t2,
        {
            let idx = remaining[t2];
            let ghost gprev = group@;
            let ghost rprev = rest@;
            proof {
                assert(cur[t2 as int] == fv[idx as int]);
                assert(file_depth(cur[t2 as int]) == depths@[idx as int] as int);
                assert(file_depth(cur[t2 as int]) >= d_int);
            }
            if depths[idx] == dmin {
                group.push(idx);
                proof {
                    assert(select_views(fv, group@) =~= select_views(fv, gprev).push(
                        cur[t2 as int],
                    ));
                }
            } else {
                rest.push(idx);
                proof {
                    assert(select_views(fv, rest@) =~= select_views(fv, rprev).push(
                        cur[t2 as int],
                    ));
                }
            }
            proof {
                reveal(Seq::filter);
                assert(cur.take(t2 + 1).drop_last() =~= cur.take(t2 as int));
                assert(cur.take(t2 + 1).last() == cur[t2 as int]);
            }
            t2 = t2 + 1;
        }
        proof {
            assert(cur.take(remaining@.len() as int) =~= cur);
        }
        let ghost gview = select_views(fv, group@);
        let ghost rview = select_views(fv, rest@);
        // collisions at this depth
        let mut gdiags = scan_group_collisions(dmin, files, &group);
        // merge this depth group, input order
        let ghost mstart = merged@;
        let mut g2: usize = 0;
        proof {
            assert(gview.take(0) =~= Seq::<SpecConfigFile>::empty());
        }
        #[verifier::loop_isolation(false)]
        while g2 < group.len()
            invariant
                g2 <= group@.len(),
                merged@ == spec_merge_fold(mstart, gview.take(g2 as int)),
            decreases group@.len() - g2,
        {
            let idx = group[g2];
            proof {
                assert(gview[g2 as int] == fv[idx as int]);
            }
            let next = deep_merge(&merged, &files[idx].value);
            merged = next;
            proof {
                let x = gview[g2 as int];
                let f0 = spec_merge_fold(mstart, gview.take(g2 as int));
                assert(x.value == files@[idx as int].value@);
                assert(seq![x].drop_first() =~= Seq::<SpecConfigFile>::empty());
                assert(spec_merge_fold(spec_deep_merge(f0, x.value), Seq::<
                    SpecConfigFile,
                >::empty()) == spec_deep_merge(f0, x.value));
                assert(spec_merge_fold(f0, seq![x]) == spec_deep_merge(f0, x.value));
                lemma_merge_fold_concat(mstart, gview.take(g2 as int), seq![x]);
                assert(gview.take(g2 + 1) =~= gview.take(g2 as int) + seq![x]);
                assert(merged@ == spec_merge_fold(mstart, gview.take(g2 + 1)));
            }
            g2 = g2 + 1;
        }
        proof {
            assert(gview.take(group@.len() as int) =~= gview);
        }
        // carry the diagnostics over and step to the deeper files
        let ghost gdv = string_views(gdiags@);
        let ghost dprev = diags@;
        diags.append(&mut gdiags);
        proof {
            assert(string_views(diags@) =~= string_views(dprev) + gdv);
            lemma_merge_fold_concat(SpecConfig::Mapping(Seq::empty()), done_order, gview);
            assert(spec_depth_order(cur) == gview + spec_depth_order(rview));
            assert(spec_all_diags(cur) == gdv + spec_all_diags(rview));
            assert((done_order + gview) + spec_depth_order(rview) =~= done_order + (gview
                + spec_depth_order(rview)));
            assert((done_diags + gdv) + spec_all_diags(rview) =~= done_diags + (gdv
                + spec_all_diags(rview)));
            done_order = done_order + gview;
            done_diags = done_diags + gdv;
            lemma_min_depth(cur);
            let w = choose|u: int|
                0 <= u < cur.len() && file_depth(#[trigger] cur[u]) == spec_min_depth(cur);
            assert(!above_depth(d_int)(cur[w]));
            lemma_filter_misses(cur, above_depth(d_int));
            assert(rview.len() < cur.len());
        }
        remaining = rest;
        proof {
            assert(select_views(fv, remaining@) == rview);
            assert(remaining@.len() == rview.len());
        }
    }
    proof {
        assert(select_views(fv, remaining@) =~= Seq::<SpecConfigFile>::empty());
        assert(spec_depth_order(fv) =~= done_order);
        assert(spec_all_diags(fv) =~= done_diags);
    }
    (merged, diags)
}

/// Every element of a filtered sequence comes from the sequence.
pub proof fn lemma_filter_elements<A>(s: Seq<A>, pred: spec_fn(A) -> bool)
    ensures
        forall|i: int|
            0 <= i < s.filter(pred).len() ==> exists|j: int|
                0 <= j < s.len() && #[trigger] s.filter(pred)[i] == s[j],
    decreases s.len(),
{
    reveal(Seq::filter);
    if s.len() > 0 {
        lemma_filter_elements(s.drop_last(), pred);
        assert forall|i: int| 0 <= i < s.filter(pred).len() implies exists|j: int|
            0 <= j < s.len() && #[trigger] s.filter(pred)[i] == s[j] by {
            let sub = s.drop_last().filter(pred);
            if i < sub.len() {
                assert(s.filter(pred)[i] == sub[i]);
                let j = choose|j: int|
                    0 <= j < s.drop_last().len() && #[trigger] sub[i] == s.drop_last()[j];
                assert(s.filter(pred)[i] == s[j]);
            } else {
                assert(s.filter(pred)[i] == s.last());
            }
        }
    }
}

/// Reordering by depth only rearranges: every reordered file is one of
/// the given files.
pub proof fn lemma_depth_order_elements(fs: Seq<SpecConfigFile>)
    ensures
        forall|i: int|
            0 <= i < spec_depth_order(fs).len() ==> exists|j: int|
                0 <= j < fs.len() && #[trigger] spec_depth_order(fs)[i] == fs[j],
    decreases fs.len(),
{
    if fs.len() > 0 {
        let d = spec_min_depth(fs);
        let head = fs.filter(at_depth(d));
        let tail = fs.filter(above_depth(d));
        lemma_filter_elements(fs, at_depth(d));
        lemma_filter_elements(fs, above_depth(d));
        lemma_min_depth(fs);
        let w = choose|u: int|
            0 <= u < fs.len() && file_depth(#[trigger] fs[u]) == spec_min_depth(fs);
        assert(!above_depth(d)(fs[w]));
        lemma_filter_misses(fs, above_depth(d));
        lemma_depth_order_elements(tail);
        assert forall|i: int| 0 <= i < spec_depth_order(fs).len() implies exists|j: int|
            0 <= j < fs.len() && #[trigger] spec_depth_order(fs)[i] == fs[j] by {
            if i < head.len() {
                assert(spec_depth_order(fs)[i] == head[i]);
            } else {
                assert(spec_depth_order(fs)[i] == spec_depth_order(tail)[i - head.len()]);
                let j = choose|j: int|
                    0 <= j < tail.len() && spec_depth_order(tail)[i - head.len()] == tail[j];
                let k = choose|k: int| 0 <= k < fs.len() && #[trigger] tail[j] == fs[k];
                assert(spec_depth_order(fs)[i] == fs[k]);
            }
        }
    }
}

/// Merge order is non-decreasing in depth: a file never comes after a
/// deeper one, so nothing a deeper file contributes is overridden by a
/// shallower one.
pub proof fn lemma_depth_order_sorted(fs: Seq<SpecConfigFile>)
    ensures
        forall|i: int, j: int|
            0 <= i < j < spec_depth_order(fs).len() ==> file_depth(
                #[trigger] spec_depth_order(fs)[i],
            ) <= file_depth(#[trigger] spec_depth_order(fs)[j]),
    decreases fs.len(),
{
    if fs.len() > 0 {
        let d = spec_min_depth(fs);
        let head = fs.filter(at_depth(d));
        let tail = fs.filter(above_depth(d));
        lemma_min_depth(fs);
        let w = choose|u: int|
            0 <= u < fs.len() && file_depth(#[trigger] fs[u]) == spec_min_depth(fs);
        assert(!above_depth(d)(fs[w]));
        lemma_filter_misses(fs, above_depth(d));
        lemma_depth_order_sorted(tail);
        lemma_depth_order_elements(tail);
        assert forall|i: int| 0 <= i < head.len() implies file_depth(#[trigger] head[i]) == d by {
            fs.lemma_filter_pred(at_depth(d), i);
        }
        assert forall|i: int| 0 <= i < spec_depth_order(tail).len() implies file_depth(
            #[trigger] spec_depth_order(tail)[i],
        ) > d by {
            let j = choose|j: int|
                0 <= j < tail.len() && spec_depth_order(tail)[i] == tail[j];
            fs.lemma_filter_pred(above_depth(d), j);
        }
        assert forall|i: int, j: int|
            0 <= i < j < spec_depth_order(fs).len() implies file_depth(
            #[trigger] spec_depth_order(fs)[i],
        ) <= file_depth(#[trigger] spec_depth_order(fs)[j]) by {
            if i < head.len() {
                assert(spec_depth_order(fs)[i] == head[i]);
            } else {
                assert(spec_depth_order(fs)[i] == spec_depth_order(tail)[i - head.len()]);
            }
            if j < head.len() {
                assert(spec_depth_order(fs)[j] == head[j]);
            } else {
                assert(spec_depth_order(fs)[j] == spec_depth_order(tail)[j - head.len()]);
            }
        }
    }
}

/// Folding mappings onto a mapping keeps a mapping.
pub proof fn lemma_merge_fold_mapping(acc: SpecConfig, fs: Seq<SpecConfigFile>)
    requires
        acc is Mapping,
        forall|i: int| 0 <= i < fs.len() ==> (#[trigger] fs[i]).value is Mapping,
    ensures
        spec_merge_fold(acc, fs) is Mapping,
    decreases fs.len(),
{
    if fs.len() > 0 {
        lemma_deep_merge_mapping(acc, fs[0].value);
        assert(forall|i: int|
            0 <= i < fs.drop_first().len() ==> (#[trigger] fs.drop_first()[i]) == fs[i + 1]);
        lemma_merge_fold_mapping(spec_deep_merge(acc, fs[0].value), fs.drop_first());
    }
}

/// The merged result is always a mapping when every file's top level is a
/// mapping — in particular, of no files at all it is the empty mapping.
pub proof fn lemma_merged_config_mapping(fs: Seq<SpecConfigFile>)
    requires
        forall|i: int| 0 <= i < fs.len() ==> (#[trigger] fs[i]).value is Mapping,
    ensures
        spec_merged_config(fs) is Mapping,
{
    lemma_depth_order_elements(fs);
    assert forall|i: int|
        0 <= i < spec_depth_order(fs).len() implies (#[trigger] spec_depth_order(fs)[i]).value
        is Mapping by {
        let j = choose|j: int| 0 <= j < fs.len() && spec_depth_order(fs)[i] == fs[j];
        assert(fs[j].value is Mapping);
    }
    lemma_merge_fold_mapping(SpecConfig::Mapping(Seq::empty()), spec_depth_order(fs));
}

/// The trees of the sources once parsed, on the premise that each parses.
pub open spec fn spec_parsed_files(srcs: Seq<SourceFile>) -> Seq<SpecConfigFile> {
    srcs.map_values(
        |s: SourceFile| SpecConfigFile { path: s.path@, value: yaml_doc(s.text@)->Some_0 },
    )
}

/// Resolves the effective configuration from the discovered files' texts:
/// parses every file (fail-fast on the first malformed one, in input order)
/// and merges the trees by depth. With no files at all the result is an
/// empty mapping beside a single diagnostic saying so.
pub fn merge_hierarchical_configs(
    base_dir: &str,
    target_path: &str,
    sources: &Vec<SourceFile>,
) -> (r: Result<(ConfigValue, Vec<String>), LoadError>)
    ensures
        sources@.len() == 0 ==> r is Ok && r->Ok_0.0@ == SpecConfig::Mapping(
            Seq::empty(),
        ) && string_views(r->Ok_0.1@) == seq![
            spec_no_files_message(base_dir@, target_path@),
        ],
        sources@.len() > 0 ==> ((r is Ok) <==> (forall|i: int|
            0 <= i < sources@.len() ==> yaml_doc((#[trigger] sources@[i]).text@) is Some)),
        sources@.len() > 0 && r is Ok ==> r->Ok_0.0@ == spec_merged_config(
            spec_parsed_files(sources@),
        ) && string_views(r->Ok_0.1@) == spec_all_diags(spec_parsed_files(sources@)),
        r is Err ==> exists|i: int|
            {
                &&& 0 <= i < sources@.len()
                &&& yaml_doc((#[trigger] sources@[i]).text@) is None
                &&& forall|j: int| 0 <= j < i ==> yaml_doc((#[trigger] sources@[j]).text@) is Some
                &&& r->Err_0 matches LoadError::Parse { path, detail: _ } && path@
                    == sources@[i].path@
            },
{
    if sources.len() == 0 {
        let mut msgs: Vec<String> = Vec::new();
        msgs.push(no_files_message(base_dir, target_path));
        proof {
            assert(string_views(msgs@) =~= seq![spec_no_files_message(base_dir@, target_path@)]);
            assert(entries_view(Seq::<(ConfigValue, ConfigValue)>::empty()) =~= Seq::<
                (SpecConfig, SpecConfig),
            >::empty());
        }
        return Ok((ConfigValue::Mapping(Vec::new()), msgs));
    }
    let parsed = match parse_yaml_configs(sources) {
        Ok(p) => p,
        Err(e) => {
            return Err(e);
        },
    };
    proof {
        assert(file_views(parsed@) =~= spec_parsed_files(sources@));
    }
    let (merged, diags) = merge_configs_by_depth(&parsed);
    Ok((merged, diags))
}

} // verus!
