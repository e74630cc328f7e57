//! Path reasoning on canonical path strings: splitting into `/`-separated
//! segments, path depth, ancestor containment, and the discovery rule that
//! keeps exactly the configuration files lying between a base directory and
//! a target location.

use vstd::prelude::*;

verus! {

/// The target location does not lie inside the base directory.
#[derive(Debug, PartialEq, Eq)]
pub enum PathError {
    OutsideBase,
}

/// Index of the first `/` in `s`, or `s.len()` when there is none.
pub open spec fn spec_first_slash(s: Seq<char>) -> int
    decreases s.len(),
{
    if s.len() == 0 {
        0
    } else if s[0] == '/' {
        0
    } else {
        1 + spec_first_slash(s.drop_first())
    }
}

pub proof fn lemma_first_slash(s: Seq<char>)
    ensures
        0 <= spec_first_slash(s) <= s.len(),
        forall|k: int| 0 <= k < spec_first_slash(s) ==> s[k] != '/',
        spec_first_slash(s) < s.len() ==> s[spec_first_slash(s)] == '/',
    decreases s.len(),
{
    if s.len() > 0 && s[0] != '/' {
        lemma_first_slash(s.drop_first());
        assert forall|k: int| 0 <= k < spec_first_slash(s) implies s[k] != '/' by {
            if k > 0 {
                assert(s.drop_first()[k - 1] == s[k]);
            }
        }
        if spec_first_slash(s) < s.len() {
            assert(s.drop_first()[spec_first_slash(s.drop_first())] == s[spec_first_slash(s)]);
        }
    }
}

/// The first `/` stands exactly where no earlier character is a `/`.
pub proof fn lemma_first_slash_at(s: Seq<char>, m: int)
    requires
        0 <= m <= s.len(),
        forall|k: int| 0 <= k < m ==> s[k] != '/',
        m < s.len() ==> s[m] == '/',
    ensures
        spec_first_slash(s) == m,
    decreases m,
{
    if m > 0 {
        lemma_first_slash_at(s.drop_first(), m - 1);
    }
}

/// The maximal non-empty runs between `/` characters, in order.
pub open spec fn spec_segments(s: Seq<char>) -> Seq<Seq<char>>
    decreases s.len(),
    via spec_segments_decreases
{
    if s.len() == 0 {
        Seq::empty()
    } else if s[0] == '/' {
        spec_segments(s.drop_first())
    } else {
        seq![s.take(spec_first_slash(s))] + spec_segments(s.skip(spec_first_slash(s)))
    }
}

#[via_fn]
proof fn spec_segments_decreases(s: Seq<char>) {
    if s.len() > 0 && s[0] != '/' {
        lemma_first_slash(s);
    }
}

/// A path has no more segments than characters; one fewer when it starts
/// with `/`.
pub proof fn lemma_segments_len(s: Seq<char>)
    ensures
        spec_segments(s).len() <= s.len(),
        s.len() > 0 && s[0] == '/' ==> spec_segments(s).len() <= s.len() - 1,
    decreases s.len(),
{
    if s.len() > 0 {
        if s[0] == '/' {
            lemma_segments_len(s.drop_first());
        } else {
            lemma_first_slash(s);
            lemma_segments_len(s.skip(spec_first_slash(s)));
        }
    }
}

/// The number of path components: the segments, plus one for the root when
/// the path is absolute.
pub open spec fn spec_depth(s: Seq<char>) -> int {
    spec_segments(s).len() + if s.len() > 0 && s[0] == '/' {
        1int
    } else {
        0int
    }
}

/// The views of a sequence of strings.
pub open spec fn string_views(s: Seq<String>) -> Seq<Seq<char>> {
    s.map_values(|x: String| x@)
}

/// Splits a path into its non-empty `/`-separated segments.
pub fn split_path(s: &str) -> (r: Vec<String>)
    ensures
        string_views(r@) == spec_segments(s@),
{
    let n = s.unicode_len();
    let mut out: Vec<String> = Vec::new();
    proof {
        assert(s@.skip(0) =~= s@);
        assert(string_views(out@) + spec_segments(s@) =~= spec_segments(s@));
    }
    let mut i: usize = 0;
    #[verifier::loop_isolation(false)]
    while i < n
        invariant
            i <= n,
            spec_segments(s@) == string_views(out@) + spec_segments(s@.skip(i as int)),
        decreases n - i,
    {
        if s.get_char(i) == '/' {
            proof {
                assert(s@.skip(i as int).drop_first() =~= s@.skip(i + 1));
            }
            i = i + 1;
        } else {
            let mut j: usize = i + 1;
            while j < n && s.get_char(j) != '/'
                invariant
                    i < j <= n,
                    n == s@.len(),
                    forall|k: int| i < k < j ==> s@[k] != '/',
                    s@[i as int] != '/',
                decreases n - j,
            {
                j = j + 1;
            }
            let seg = s.substring_char(i, j).to_owned();
            let ghost prev = out@;
            out.push(seg);
            proof {
                let t = s@.skip(i as int);
                assert(forall|k: int| 0 <= k < j - i ==> t[k] == s@[k + i]);
                lemma_first_slash_at(t, j - i);
                assert(t.take(j - i) =~= seg@);
                assert(t.skip(j - i) =~= s@.skip(j as int));
                assert(string_views(out@) =~= string_views(prev).push(seg@));
                assert(string_views(prev) + (seq![seg@] + spec_segments(s@.skip(j as int)))
                    =~= string_views(out@) + spec_segments(s@.skip(j as int)));
            }
            i = j;
        }
    }
    proof {
        assert(s@.skip(n as int) =~= Seq::<char>::empty());
        assert(string_views(out@) =~= spec_segments(s@));
    }
    out
}

/// The number of path components of `path`, counting the leading root.
pub fn path_depth(path: &str) -> (d: usize)
    ensures
        d as int == spec_depth(path@),
{
    let n = path.unicode_len();
    let parts = split_path(path);
    proof {
        lemma_segments_len(path@);
    }
    let k = parts.len();
    if n > 0 && path.get_char(0) == '/' {
        k + 1
    } else {
        k
    }
}

/// `target` is the base itself or lies beneath it: the base's characters are
/// a prefix that ends on a path-segment boundary.
pub open spec fn spec_within(base: Seq<char>, target: Seq<char>) -> bool {
    target == base || (target.len() > base.len() && target.take(base.len() as int) == base && (
    target[base.len() as int] == '/' || (base.len() > 0 && base.last() == '/')))
}

/// Decides `spec_within`.
pub fn path_within(base: &str, target: &str) -> (r: bool)
    ensures
        r == spec_within(base@, target@),
{
    let nb = base.unicode_len();
    let nt = target.unicode_len();
    if nt < nb {
        return false;
    }
    let mut i: usize = 0;
    #[verifier::loop_isolation(false)]
    while i < nb
        invariant
            i <= nb,
            forall|k: int| 0 <= k < i ==> target@[k] == base@[k],
        decreases nb - i,
    {
        if target.get_char(i) != base.get_char(i) {
            proof {
                assert(target@[i as int] != base@[i as int]);
                if target@ == base@ {
                    assert(false);
                }
                if target@.take(nb as int) == base@ {
                    assert(target@.take(nb as int)[i as int] == target@[i as int]);
                }
            }
            return false;
        }
        i = i + 1;
    }
    if nt == nb {
        proof {
            assert(target@ =~= base@);
        }
        return true;
    }
    proof {
        assert(target@.take(nb as int) =~= base@);
    }
    if target.get_char(nb) == '/' {
        return true;
    }
    if nb > 0 && base.get_char(nb - 1) == '/' {
        return true;
    }
    false
}

/// The segments of the target relative to the base.
pub open spec fn spec_target_parts(base: Seq<char>, target: Seq<char>) -> Seq<Seq<char>> {
    spec_segments(target.skip(base.len() as int))
}

/// Validates that `target_path` lies within `base_dir` and yields the path
/// segments from the base down to the target, empty when they are equal.
/// Both paths are expected in canonical form; the check is textual.
pub fn resolve_target_components(base_dir: &str, target_path: &str) -> (r: Result<
    Vec<String>,
    PathError,
>)
    ensures
        r is Ok <==> spec_within(base_dir@, target_path@),
        r is Err ==> r->Err_0 == PathError::OutsideBase,
        r is Ok ==> string_views(r->Ok_0@) == spec_target_parts(base_dir@, target_path@),
{
    if !path_within(base_dir, target_path) {
        return Err(PathError::OutsideBase);
    }
    let nb = base_dir.unicode_len();
    let nt = target_path.unicode_len();
    let rel = target_path.substring_char(nb, nt);
    proof {
        assert(rel@ =~= target_path@.skip(nb as int));
    }
    Ok(split_path(rel))
}

/// The file name carries extension `.yaml` or `.yml` (exact case), with a
/// non-empty stem in front of the dot.
pub open spec fn spec_is_yaml_name(name: Seq<char>) -> bool {
    (name.len() >= 6 && name.skip(name.len() - 5) == ".yaml"@) || (name.len() >= 5 && name.skip(
        name.len() - 4,
    ) == ".yml"@)
}

/// Decides `spec_is_yaml_name`.
pub fn is_yaml_name(name: &str) -> (r: bool)
    ensures
        r == spec_is_yaml_name(name@),
{
    proof {
        reveal_strlit(".yaml");
        reveal_strlit(".yml");
    }
    let n = name.unicode_len();
    let yaml = n >= 6 && name.get_char(n - 5) == '.' && name.get_char(n - 4) == 'y'
        && name.get_char(n - 3) == 'a' && name.get_char(n - 2) == 'm' && name.get_char(n - 1)
        == 'l';
    let yml = n >= 5 && name.get_char(n - 4) == '.' && name.get_char(n - 3) == 'y'
        && name.get_char(n - 2) == 'm' && name.get_char(n - 1) == 'l';
    proof {
        if yaml {
            assert(name@.skip(n as int - 5) =~= ".yaml"@);
        }
        if yml {
            assert(name@.skip(n as int - 4) =~= ".yml"@);
        }
        if n >= 6 && name@.skip(n as int - 5) == ".yaml"@ {
            assert(name@.skip(n as int - 5)[0] == name@[n as int - 5]);
            assert(name@.skip(n as int - 5)[1] == name@[n as int - 4]);
            assert(name@.skip(n as int - 5)[2] == name@[n as int - 3]);
            assert(name@.skip(n as int - 5)[3] == name@[n as int - 2]);
            assert(name@.skip(n as int - 5)[4] == name@[n as int - 1]);
            assert(yaml);
        }
        if n >= 5 && name@.skip(n as int - 4) == ".yml"@ {
            assert(name@.skip(n as int - 4)[0] == name@[n as int - 4]);
            assert(name@.skip(n as int - 4)[1] == name@[n as int - 3]);
            assert(name@.skip(n as int - 4)[2] == name@[n as int - 2]);
            assert(name@.skip(n as int - 4)[3] == name@[n as int - 1]);
            assert(yml);
        }
    }
    yaml || yml
}

/// The directory segments `dir` are an initial run of the target's segments.
pub open spec fn spec_dir_prefix(dir: Seq<Seq<char>>, target: Seq<Seq<char>>) -> bool {
    dir.len() <= target.len() && dir == target.take(dir.len() as int)
}

/// A candidate file path belongs to the hierarchy between the base and the
/// target: it lies under the base, names a YAML file, and its directory's
/// segments relative to the base are a prefix of the target's.
pub open spec fn spec_file_applies(
    base: Seq<char>,
    target_parts: Seq<Seq<char>>,
    path: Seq<char>,
) -> bool {
    let parts = spec_segments(path.skip(base.len() as int));
    spec_within(base, path) && parts.len() >= 1 && spec_is_yaml_name(parts.last())
        && spec_dir_prefix(parts.drop_last(), target_parts)
}

/// `spec_file_applies` as a predicate on the path alone.
pub open spec fn spec_applies_pred(base: Seq<char>, target_parts: Seq<Seq<char>>) -> spec_fn(
    Seq<char>,
) -> bool {
    |p: Seq<char>| spec_file_applies(base, target_parts, p)
}

/// Decides `spec_file_applies`.
pub fn file_applies(base_dir: &str, target_parts: &Vec<String>, path: &str) -> (r: bool)
    ensures
        r == spec_file_applies(base_dir@, string_views(target_parts@), path@),
{
    if !path_within(base_dir, path) {
        return false;
    }
    let nb = base_dir.unicode_len();
    let n = path.unicode_len();
    let rel = path.substring_char(nb, n);
    proof {
        assert(rel@ =~= path@.skip(nb as int));
    }
    let parts = split_path(rel);
    let ghost pv = spec_segments(path@.skip(nb as int));
    if parts.len() == 0 {
        return false;
    }
    if !is_yaml_name(parts[parts.len() - 1].as_str()) {
        return false;
    }
    let dir_len = parts.len() - 1;
    if dir_len > target_parts.len() {
        proof {
            assert(pv.drop_last().len() == dir_len);
        }
        return false;
    }
    let ghost tv = string_views(target_parts@);
    let mut k: usize = 0;
    #[verifier::loop_isolation(false)]
    while k < dir_len
        invariant
            k <= dir_len,
            dir_len < parts@.len(),
            dir_len <= target_parts@.len(),
            forall|j: int| 0 <= j < k ==> pv.drop_last()[j] == tv[j],
        decreases dir_len - k,
    {
        if !parts[k].eq(&target_parts[k]) {
            proof {
                assert(pv.drop_last()[k as int] != tv[k as int]);
                assert(pv.drop_last()[k as int] != tv.take(dir_len as int)[k as int]);
            }
            return false;
        }
        k = k + 1;
    }
    proof {
        assert(pv.drop_last() =~= tv.take(dir_len as int));
    }
    true
}

/// Keeps, of all candidate file paths, exactly those that lie in the
/// hierarchy between the base directory and the target path; fails with
/// `OutsideBase` when the target does not lie within the base. Order among
/// the kept paths follows the candidates.
pub fn find_yaml_files_in_hierarchy(base_dir: &str, target_path: &str, candidates: &Vec<String>)
    -> (r: Result<Vec<String>, PathError>)
    ensures
        r is Ok <==> spec_within(base_dir@, target_path@),
        r is Err ==> r->Err_0 == PathError::OutsideBase,
        r is Ok ==> string_views(r->Ok_0@) == string_views(candidates@).filter(
            spec_applies_pred(base_dir@, spec_target_parts(base_dir@, target_path@)),
        ),
{
    let target_parts = match resolve_target_components(base_dir, target_path) {
        Ok(parts) => parts,
        Err(e) => {
            return Err(e);
        },
    };
    let ghost pred = spec_applies_pred(base_dir@, spec_target_parts(base_dir@, target_path@));
    let ghost cv = string_views(candidates@);
    let mut out: Vec<String> = Vec::new();
    proof {
        reveal(Seq::filter);
        assert(string_views(out@) =~= cv.take(0).filter(pred));
    }
    let mut i: usize = 0;
    #[verifier::loop_isolation(false)]
    while i < candidates.len()
        invariant
            i <= candidates@.len(),
            string_views(out@) == cv.take(i as int).filter(pred),
        decreases candidates@.len() - i,
    {
        let ghost prev = out@;
        if file_applies(base_dir, &target_parts, candidates[i].as_str()) {
            out.push(candidates[i].clone());
            proof {
                assert(string_views(out@) =~= string_views(prev).push(candidates@[i as int]@));
            }
        }
        proof {
            reveal(Seq::filter);
            assert(cv.take(i + 1).drop_last() =~= cv.take(i as int));
            assert(cv.take(i + 1).last() == cv[i as int]);
        }
        i = i + 1;
    }
    proof {
        assert(cv.take(candidates@.len() as int) =~= cv);
    }
    Ok(out)
}

} // verus!
