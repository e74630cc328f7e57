//! Deep merge of configuration trees: two mappings merge key by key,
//! recursing where both sides hold a mapping under the same key; any other
//! pair is decided by the overriding side alone. The result is a fresh tree;
//! neither input is touched.

use vstd::prelude::*;
use crate::value::{
    ConfigValue, SpecConfig, entries_view, find_key, lemma_config_view_variants,
    lemma_entries_view, spec_has_key, spec_key_index, spec_unique_keys, spec_value_of, spec_wf,
    lemma_key_index, lemma_key_index_first,
};

verus! {

/// The merge of two trees: when both are mappings, every key of `base`
/// (merged with the overriding value where `over` carries the same key)
/// followed by the entries of `over` whose keys are new; otherwise `over`.
pub open spec fn spec_deep_merge(base: SpecConfig, over: SpecConfig) -> SpecConfig
    decreases base, over,
{
    match (base, over) {
        (SpecConfig::Mapping(b), SpecConfig::Mapping(o)) => SpecConfig::Mapping(
            spec_update_entries(b, o) + spec_added_entries(b, o),
        ),
        _ => over,
    }
}

/// The entries of `b`, in order, each merged with the value that `o` carries
/// under the same key, where it carries one.
pub open spec fn spec_update_entries(
    b: Seq<(SpecConfig, SpecConfig)>,
    o: Seq<(SpecConfig, SpecConfig)>,
) -> Seq<(SpecConfig, SpecConfig)>
    decreases b, o,
{
    if b.len() == 0 {
        Seq::empty()
    } else {
        let kv = b.last();
        let merged = if spec_has_key(o, kv.0) {
            spec_deep_merge(kv.1, spec_value_of(o, kv.0))
        } else {
            kv.1
        };
        spec_update_entries(b.drop_last(), o).push((kv.0, merged))
    }
}

/// The entries of `o`, in order, whose keys `b` does not carry.
pub open spec fn spec_added_entries(
    b: Seq<(SpecConfig, SpecConfig)>,
    o: Seq<(SpecConfig, SpecConfig)>,
) -> Seq<(SpecConfig, SpecConfig)>
    decreases o.len(),
{
    if o.len() == 0 {
        Seq::empty()
    } else {
        let rest = spec_added_entries(b, o.drop_last());
        if spec_has_key(b, o.last().0) {
            rest
        } else {
            rest.push(o.last())
        }
    }
}

/// `spec_update_entries` rewrites `b` pointwise.
pub proof fn lemma_update_entries(
    b: Seq<(SpecConfig, SpecConfig)>,
    o: Seq<(SpecConfig, SpecConfig)>,
)
    ensures
        spec_update_entries(b, o).len() == b.len(),
        forall|i: int| 0 <= i < b.len() ==> #[trigger] spec_update_entries(b, o)[i] == (
            b[i].0,
            if spec_has_key(o, b[i].0) {
                spec_deep_merge(b[i].1, spec_value_of(o, b[i].0))
            } else {
                b[i].1
            },
        ),
    decreases b.len(),
{
    if b.len() > 0 {
        lemma_update_entries(b.drop_last(), o);
    }
}

/// When every key of `o` is carried by `b`, nothing is added.
pub proof fn lemma_added_entries_empty(
    b: Seq<(SpecConfig, SpecConfig)>,
    o: Seq<(SpecConfig, SpecConfig)>,
)
    requires
        forall|i: int| 0 <= i < o.len() ==> spec_has_key(b, (#[trigger] o[i]).0),
    ensures
        spec_added_entries(b, o) == Seq::<(SpecConfig, SpecConfig)>::empty(),
    decreases o.len(),
{
    if o.len() > 0 {
        assert(forall|i: int| 0 <= i < o.drop_last().len()
            ==> (#[trigger] o.drop_last()[i]) == o[i]);
        lemma_added_entries_empty(b, o.drop_last());
    }
}

/// With unique keys, a key's first index is the index where it stands.
pub proof fn lemma_unique_key_index(entries: Seq<(SpecConfig, SpecConfig)>, i: int)
    requires
        spec_unique_keys(entries),
        0 <= i < entries.len(),
    ensures
        spec_has_key(entries, entries[i].0),
        spec_key_index(entries, entries[i].0) == i,
        spec_value_of(entries, entries[i].0) == entries[i].1,
{
    assert forall|j: int| 0 <= j < i implies (#[trigger] entries[j]).0 != entries[i].0 by {}
    lemma_key_index_first(entries, entries[i].0, i);
}

/// Merging any tree with itself gives it back, provided its mappings repeat
/// no key: `spec_deep_merge(t, t) == t` for every well-formed `t`.
pub proof fn lemma_deep_merge_idempotent(t: SpecConfig)
    requires
        spec_wf(t),
    ensures
        spec_deep_merge(t, t) == t,
    decreases t,
{
    match t {
        SpecConfig::Mapping(es) => {
            lemma_update_entries(es, es);
            assert forall|i: int| 0 <= i < es.len() implies spec_has_key(
                es,
                (#[trigger] es[i]).0,
            ) by {
                lemma_unique_key_index(es, i);
            }
            lemma_added_entries_empty(es, es);
            assert forall|i: int| 0 <= i < es.len() implies #[trigger] spec_update_entries(
                es,
                es,
            )[i] == es[i] by {
                lemma_unique_key_index(es, i);
                lemma_deep_merge_idempotent(es[i].1);
            }
            assert(spec_update_entries(es, es) + spec_added_entries(es, es) =~= es);
        },
        _ => {},
    }
}

/// The merge is right-biased on non-mappings: whatever `a` is, a non-mapping
/// `b` replaces it outright.
pub proof fn lemma_deep_merge_right_biased(a: SpecConfig, b: SpecConfig)
    requires
        !(b is Mapping),
    ensures
        spec_deep_merge(a, b) == b,
{
}

/// Merging never loses mapping-ness of the overriding side, and merging onto
/// a mapping yields a mapping unless the override replaces it.
pub proof fn lemma_deep_merge_mapping(a: SpecConfig, b: SpecConfig)
    requires
        b is Mapping,
    ensures
        spec_deep_merge(a, b) is Mapping,
{
}

/// The keys of a mapping's entries, in order.
pub open spec fn spec_entry_keys(s: Seq<(SpecConfig, SpecConfig)>) -> Seq<SpecConfig> {
    s.map_values(|kv: (SpecConfig, SpecConfig)| kv.0)
}

/// A key is added exactly when `o` carries it and `b` does not.
pub proof fn lemma_added_mem(
    b: Seq<(SpecConfig, SpecConfig)>,
    o: Seq<(SpecConfig, SpecConfig)>,
    k: SpecConfig,
)
    ensures
        spec_has_key(spec_added_entries(b, o), k) <==> (spec_has_key(o, k) && !spec_has_key(b, k)),
    decreases o.len(),
{
    if o.len() > 0 {
        let oo = o.drop_last();
        lemma_added_mem(b, oo, k);
        let prev = spec_added_entries(b, oo);
        assert(forall|i: int| 0 <= i < oo.len() ==> (#[trigger] oo[i]) == o[i]);
        if spec_has_key(o, k) {
            let i = choose|i: int| 0 <= i < o.len() && (#[trigger] o[i]).0 == k;
            if i < o.len() - 1 {
                assert(oo[i] == o[i]);
                assert(spec_has_key(oo, k));
            }
        }
        if spec_has_key(oo, k) {
            let i = choose|i: int| 0 <= i < oo.len() && (#[trigger] oo[i]).0 == k;
            assert(o[i] == oo[i]);
            assert(spec_has_key(o, k));
        }
        if spec_has_key(prev, k) {
            let i = choose|i: int| 0 <= i < prev.len() && (#[trigger] prev[i]).0 == k;
            if !spec_has_key(b, o.last().0) {
                assert(spec_added_entries(b, o)[i] == prev[i]);
            }
            assert(spec_has_key(spec_added_entries(b, o), k));
        }
        if !spec_has_key(b, o.last().0) && o.last().0 == k {
            assert(spec_added_entries(b, o).last().0 == k);
            assert(spec_has_key(spec_added_entries(b, o), k));
        }
        if spec_has_key(spec_added_entries(b, o), k) && !spec_has_key(prev, k) {
            let i = choose|i: int|
                0 <= i < spec_added_entries(b, o).len() && (#[trigger] spec_added_entries(b, o)[i]).0
                    == k;
            if !spec_has_key(b, o.last().0) && i < prev.len() {
                assert(prev[i] == spec_added_entries(b, o)[i]);
            }
        }
    }
}

/// Every added entry stands somewhere in `o`, with a key that `b` lacks.
pub proof fn lemma_added_elements(
    b: Seq<(SpecConfig, SpecConfig)>,
    o: Seq<(SpecConfig, SpecConfig)>,
)
    ensures
        forall|j: int|
            0 <= j < spec_added_entries(b, o).len() ==> !spec_has_key(
                b,
                (#[trigger] spec_added_entries(b, o)[j]).0,
            ) && exists|w: int| 0 <= w < o.len() && spec_added_entries(b, o)[j] == o[w],
    decreases o.len(),
{
    if o.len() > 0 {
        let oo = o.drop_last();
        lemma_added_elements(b, oo);
        let prev = spec_added_entries(b, oo);
        let cur = spec_added_entries(b, o);
        assert(forall|i: int| 0 <= i < oo.len() ==> (#[trigger] oo[i]) == o[i]);
        assert forall|j: int| 0 <= j < cur.len() implies !spec_has_key(
            b,
            (#[trigger] cur[j]).0,
        ) && exists|w: int| 0 <= w < o.len() && cur[j] == o[w] by {
            if j < prev.len() {
                assert(cur[j] == prev[j]);
                let w = choose|w: int| 0 <= w < oo.len() && prev[j] == oo[w];
                assert(cur[j] == o[w]);
            } else {
                assert(cur[j] == o.last());
                assert(cur[j] == o[o.len() - 1]);
            }
        }
    }
}

/// With unique keys in `o`, an added key keeps its value from `o`.
pub proof fn lemma_added_value(
    b: Seq<(SpecConfig, SpecConfig)>,
    o: Seq<(SpecConfig, SpecConfig)>,
    k: SpecConfig,
)
    requires
        spec_unique_keys(o),
        spec_has_key(o, k),
        !spec_has_key(b, k),
    ensures
        spec_has_key(spec_added_entries(b, o), k),
        spec_value_of(spec_added_entries(b, o), k) == spec_value_of(o, k),
{
    lemma_added_mem(b, o, k);
    let added = spec_added_entries(b, o);
    lemma_key_index(added, k);
    let j = spec_key_index(added, k);
    lemma_added_elements(b, o);
    let w = choose|w: int| 0 <= w < o.len() && added[j] == o[w];
    lemma_unique_key_index(o, w);
}

/// With unique keys in `o`, the added entries repeat no key.
pub proof fn lemma_added_unique(
    b: Seq<(SpecConfig, SpecConfig)>,
    o: Seq<(SpecConfig, SpecConfig)>,
)
    requires
        spec_unique_keys(o),
    ensures
        spec_unique_keys(spec_added_entries(b, o)),
    decreases o.len(),
{
    if o.len() > 0 {
        let oo = o.drop_last();
        assert(forall|i: int| 0 <= i < oo.len() ==> (#[trigger] oo[i]) == o[i]);
        assert(spec_unique_keys(oo));
        lemma_added_unique(b, oo);
        let prev = spec_added_entries(b, oo);
        let cur = spec_added_entries(b, o);
        if !spec_has_key(b, o.last().0) {
            assert forall|i: int, j: int| 0 <= i < j < cur.len() implies #[trigger] cur[i].0
                != #[trigger] cur[j].0 by {
                if j < prev.len() {
                    assert(cur[i] == prev[i] && cur[j] == prev[j]);
                } else {
                    assert(cur[i] == prev[i] && cur[j] == o.last());
                    lemma_added_elements(b, oo);
                    let w = choose|w: int| 0 <= w < oo.len() && prev[i] == oo[w];
                    assert(o[w] == oo[w]);
                    assert(o[w].0 != o[o.len() - 1].0);
                }
            }
        }
    }
}

/// Looking a key up in a merged mapping: present exactly when one side
/// carries it; merged recursively when both do, otherwise taken from the
/// side that does.
pub proof fn lemma_merged_lookup(
    x: Seq<(SpecConfig, SpecConfig)>,
    y: Seq<(SpecConfig, SpecConfig)>,
    k: SpecConfig,
)
    requires
        spec_unique_keys(x),
        spec_unique_keys(y),
    ensures
        ({
            let m = spec_update_entries(x, y) + spec_added_entries(x, y);
            &&& (spec_has_key(m, k) <==> (spec_has_key(x, k) || spec_has_key(y, k)))
            &&& (spec_has_key(x, k) && spec_has_key(y, k) ==> spec_value_of(m, k)
                == spec_deep_merge(spec_value_of(x, k), spec_value_of(y, k)))
            &&& (spec_has_key(x, k) && !spec_has_key(y, k) ==> spec_value_of(m, k)
                == spec_value_of(x, k))
            &&& (!spec_has_key(x, k) && spec_has_key(y, k) ==> spec_value_of(m, k)
                == spec_value_of(y, k))
        }),
{
    let upd = spec_update_entries(x, y);
    let added = spec_added_entries(x, y);
    let m = upd + added;
    lemma_update_entries(x, y);
    lemma_added_mem(x, y, k);
    lemma_added_elements(x, y);
    if spec_has_key(x, k) {
        lemma_key_index(x, k);
        let i = spec_key_index(x, k);
        assert(m[i] == upd[i]);
        assert forall|j: int| 0 <= j < i implies (#[trigger] m[j]).0 != k by {
            assert(m[j] == upd[j]);
            assert(upd[j].0 == x[j].0);
        }
        lemma_key_index_first(m, k, i);
    } else {
        if spec_has_key(y, k) {
            lemma_added_value(x, y, k);
            lemma_key_index(added, k);
            let j = spec_key_index(added, k);
            assert(m[upd.len() + j] == added[j]);
            assert forall|u: int| 0 <= u < upd.len() + j implies (#[trigger] m[u]).0 != k by {
                if u < upd.len() {
                    assert(m[u] == upd[u]);
                    assert(upd[u].0 == x[u].0);
                    assert(spec_has_key(x, x[u].0));
                } else {
                    assert(m[u] == added[u - upd.len()]);
                }
            }
            lemma_key_index_first(m, k, upd.len() + j);
        } else {
            if spec_has_key(m, k) {
                let u = choose|u: int| 0 <= u < m.len() && (#[trigger] m[u]).0 == k;
                if u < upd.len() {
                    assert(m[u] == upd[u]);
                    assert(spec_has_key(x, k));
                } else {
                    assert(m[u] == added[u - upd.len()]);
                    assert(spec_has_key(added, k));
                }
            }
        }
    }
}

/// Two mappings with the same key sequence, unique keys, and the same value
/// under every key are the same mapping.
pub proof fn lemma_entries_from_lookup(
    m1: Seq<(SpecConfig, SpecConfig)>,
    m2: Seq<(SpecConfig, SpecConfig)>,
)
    requires
        spec_unique_keys(m1),
        spec_entry_keys(m1) == spec_entry_keys(m2),
        forall|k: SpecConfig| spec_has_key(m1, k) ==> spec_value_of(m1, k) == spec_value_of(m2, k),
    ensures
        m1 == m2,
{
    assert(spec_entry_keys(m1).len() == m1.len());
    assert(spec_entry_keys(m2).len() == m2.len());
    assert(m1.len() == m2.len());
    assert(forall|i: int| 0 <= i < m1.len() ==> (#[trigger] m1[i]).0 == spec_entry_keys(m1)[i]);
    assert(forall|i: int| 0 <= i < m2.len() ==> (#[trigger] m2[i]).0 == spec_entry_keys(m2)[i]);
    assert(spec_unique_keys(m2));
    assert forall|i: int| 0 <= i < m1.len() implies #[trigger] m1[i] == m2[i] by {
        lemma_unique_key_index(m1, i);
        lemma_unique_key_index(m2, i);
        assert(m1[i].0 == m2[i].0);
        assert(spec_value_of(m2, m1[i].0) == m2[i].1);
    }
    assert(m1 =~= m2);
}

/// The keys of `y` that `b` lacks, in order.
pub open spec fn spec_new_keys(
    b: Seq<(SpecConfig, SpecConfig)>,
    y: Seq<(SpecConfig, SpecConfig)>,
) -> Seq<SpecConfig>
    decreases y.len(),
{
    if y.len() == 0 {
        Seq::empty()
    } else {
        let rest = spec_new_keys(b, y.drop_last());
        if spec_has_key(b, y.last().0) {
            rest
        } else {
            rest.push(y.last().0)
        }
    }
}

/// New keys of a concatenation: the new keys of each part, in order.
pub proof fn lemma_new_keys_concat(
    b: Seq<(SpecConfig, SpecConfig)>,
    x: Seq<(SpecConfig, SpecConfig)>,
    y: Seq<(SpecConfig, SpecConfig)>,
)
    ensures
        spec_new_keys(b, x + y) == spec_new_keys(b, x) + spec_new_keys(b, y),
    decreases y.len(),
{
    if y.len() == 0 {
        assert(x + y =~= x);
        assert(spec_new_keys(b, x) + spec_new_keys(b, y) =~= spec_new_keys(b, x));
    } else {
        lemma_new_keys_concat(b, x, y.drop_last());
        assert((x + y).drop_last() =~= x + y.drop_last());
        assert((x + y).last() == y.last());
        if !spec_has_key(b, y.last().0) {
            assert(spec_new_keys(b, x) + spec_new_keys(b, y.drop_last()).push(y.last().0)
                =~= (spec_new_keys(b, x) + spec_new_keys(b, y.drop_last())).push(y.last().0));
        }
    }
}

/// The new keys depend only on the key sequence.
pub proof fn lemma_new_keys_same_keys(
    b: Seq<(SpecConfig, SpecConfig)>,
    x: Seq<(SpecConfig, SpecConfig)>,
    y: Seq<(SpecConfig, SpecConfig)>,
)
    requires
        x.len() == y.len(),
        forall|i: int| 0 <= i < x.len() ==> (#[trigger] x[i]).0 == y[i].0,
    ensures
        spec_new_keys(b, x) == spec_new_keys(b, y),
    decreases x.len(),
{
    if x.len() > 0 {
        assert(forall|i: int| 0 <= i < x.drop_last().len() ==> (#[trigger] x.drop_last()[i])
            == x[i]);
        assert(forall|i: int| 0 <= i < y.drop_last().len() ==> (#[trigger] y.drop_last()[i])
            == y[i]);
        lemma_new_keys_same_keys(b, x.drop_last(), y.drop_last());
        assert(x.last().0 == y[x.len() - 1].0);
    }
}

/// A merged mapping carries a key exactly when one side does.
pub proof fn lemma_merged_mem(
    x: Seq<(SpecConfig, SpecConfig)>,
    y: Seq<(SpecConfig, SpecConfig)>,
    k: SpecConfig,
)
    ensures
        spec_has_key(spec_update_entries(x, y) + spec_added_entries(x, y), k) <==> (spec_has_key(
            x,
            k,
        ) || spec_has_key(y, k)),
{
    let upd = spec_update_entries(x, y);
    let added = spec_added_entries(x, y);
    let m = upd + added;
    lemma_update_entries(x, y);
    lemma_added_mem(x, y, k);
    if spec_has_key(x, k) {
        let i = choose|i: int| 0 <= i < x.len() && (#[trigger] x[i]).0 == k;
        assert(m[i] == upd[i]);
        assert(spec_has_key(m, k));
    }
    if spec_has_key(y, k) && !spec_has_key(x, k) {
        let i = choose|i: int| 0 <= i < added.len() && (#[trigger] added[i]).0 == k;
        assert(m[upd.len() + i] == added[i]);
        assert(spec_has_key(m, k));
    }
    if spec_has_key(m, k) {
        let u = choose|u: int| 0 <= u < m.len() && (#[trigger] m[u]).0 == k;
        if u < upd.len() {
            assert(m[u] == upd[u]);
            assert(spec_has_key(x, k));
        } else {
            assert(m[u] == added[u - upd.len()]);
            assert(spec_has_key(added, k));
        }
    }
}

/// The added entries carry exactly the new keys, in order.
pub proof fn lemma_added_new_keys(
    x: Seq<(SpecConfig, SpecConfig)>,
    y: Seq<(SpecConfig, SpecConfig)>,
)
    ensures
        spec_entry_keys(spec_added_entries(x, y)) == spec_new_keys(x, y),
    decreases y.len(),
{
    if y.len() == 0 {
        assert(spec_entry_keys(spec_added_entries(x, y)) =~= spec_new_keys(x, y));
    } else {
        lemma_added_new_keys(x, y.drop_last());
        if spec_has_key(x, y.last().0) {
            assert(spec_entry_keys(spec_added_entries(x, y)) =~= spec_new_keys(x, y));
        } else {
            assert(spec_entry_keys(spec_added_entries(x, y)) =~= spec_entry_keys(
                spec_added_entries(x, y.drop_last()),
            ).push(y.last().0));
            assert(spec_entry_keys(spec_added_entries(x, y)) =~= spec_new_keys(x, y));
        }
    }
}

/// The keys of a merged mapping: those of `x`, then the new ones of `y`.
pub proof fn lemma_merged_keys(
    x: Seq<(SpecConfig, SpecConfig)>,
    y: Seq<(SpecConfig, SpecConfig)>,
)
    ensures
        spec_entry_keys(spec_update_entries(x, y) + spec_added_entries(x, y)) == spec_entry_keys(x)
            + spec_new_keys(x, y),
{
    lemma_update_entries(x, y);
    lemma_added_new_keys(x, y);
    assert(spec_entry_keys(spec_update_entries(x, y) + spec_added_entries(x, y))
        =~= spec_entry_keys(spec_update_entries(x, y)) + spec_entry_keys(spec_added_entries(x, y)));
    assert(spec_entry_keys(spec_update_entries(x, y)) =~= spec_entry_keys(x));
}

/// Seen from `x`, the new keys of a merge of `y` and `z` split into the new
/// keys of `y` and, seen from the `x`-`y` merge, the new keys of `z`.
pub proof fn lemma_new_keys_crux(
    x: Seq<(SpecConfig, SpecConfig)>,
    y: Seq<(SpecConfig, SpecConfig)>,
    z: Seq<(SpecConfig, SpecConfig)>,
)
    ensures
        spec_new_keys(spec_update_entries(x, y) + spec_added_entries(x, y), z) == spec_new_keys(
            x,
            spec_added_entries(y, z),
        ),
    decreases z.len(),
{
    let m = spec_update_entries(x, y) + spec_added_entries(x, y);
    if z.len() > 0 {
        lemma_new_keys_crux(x, y, z.drop_last());
        let k = z.last().0;
        lemma_merged_mem(x, y, k);
        if spec_has_key(y, k) {
            assert(spec_has_key(m, k));
        } else {
            let prev = spec_added_entries(y, z.drop_last());
            assert(spec_added_entries(y, z) == prev.push(z.last()));
            assert(prev.push(z.last()).drop_last() =~= prev);
            assert(prev.push(z.last()).last() == z.last());
        }
    }
}

/// Merging preserves well-formedness.
pub proof fn lemma_merge_preserves_wf(a: SpecConfig, b: SpecConfig)
    requires
        spec_wf(a),
        spec_wf(b),
    ensures
        spec_wf(spec_deep_merge(a, b)),
    decreases a, b,
{
    if a is Mapping && b is Mapping {
        let x = a->Mapping_0;
        let y = b->Mapping_0;
        let upd = spec_update_entries(x, y);
        let added = spec_added_entries(x, y);
        let m = upd + added;
        lemma_update_entries(x, y);
        lemma_added_elements(x, y);
        lemma_added_unique(x, y);
        assert forall|i: int, j: int| 0 <= i < j < m.len() implies (#[trigger] m[i]).0 != (
        #[trigger] m[j]).0 by {
            if j < upd.len() {
                assert(m[i] == upd[i] && m[j] == upd[j]);
            } else if i >= upd.len() {
                assert(m[i] == added[i - upd.len()] && m[j] == added[j - upd.len()]);
            } else {
                assert(m[i] == upd[i] && m[j] == added[j - upd.len()]);
                assert(m[i].0 == x[i].0);
                assert(spec_has_key(x, x[i].0));
            }
        }
        assert forall|i: int| 0 <= i < m.len() implies spec_wf((#[trigger] m[i]).0) && spec_wf(
            m[i].1,
        ) by {
            if i < upd.len() {
                assert(m[i] == upd[i]);
                assert(spec_wf(x[i].0) && spec_wf(x[i].1));
                if spec_has_key(y, x[i].0) {
                    lemma_key_index(y, x[i].0);
                    let w = spec_key_index(y, x[i].0);
                    assert(spec_wf(y[w].1));
                    lemma_merge_preserves_wf(x[i].1, spec_value_of(y, x[i].0));
                }
            } else {
                let w = choose|w: int| 0 <= w < y.len() && added[i - upd.len()] == y[w];
                assert(spec_wf(y[w].0) && spec_wf(y[w].1));
            }
        }
    }
}

/// The premise under which three-way merging associates: wherever the
/// deeper override `c` holds a mapping under a key that `b` also carries,
/// `b` holds a mapping there too, recursively. Without it associativity
/// fails: a mapping in `c` merges into the scalar that `b` put there on one
/// side, and into the value that the scalar had replaced on the other.
pub open spec fn spec_merge_compatible(b: SpecConfig, c: SpecConfig) -> bool
    decreases c,
{
    if c is Mapping {
        b is Mapping && (forall|i: int|
            0 <= i < c->Mapping_0.len() && spec_has_key(
                b->Mapping_0,
                (#[trigger] c->Mapping_0[i]).0,
            ) ==> spec_merge_compatible(
                spec_value_of(b->Mapping_0, c->Mapping_0[i].0),
                c->Mapping_0[i].1,
            ))
    } else {
        true
    }
}

/// Chained merging in depth order associates: merging `a`, then `b`, then
/// `c` gives the same tree as merging `b` with `c` first, for well-formed
/// trees with `b` and `c` compatible.
pub proof fn lemma_deep_merge_associative(a: SpecConfig, b: SpecConfig, c: SpecConfig)
    requires
        spec_wf(a),
        spec_wf(b),
        spec_wf(c),
        spec_merge_compatible(b, c),
    ensures
        spec_deep_merge(spec_deep_merge(a, b), c) == spec_deep_merge(a, spec_deep_merge(b, c)),
    decreases a,
{
    if !(c is Mapping) {
        // both sides are c itself
    } else if !(a is Mapping) {
        lemma_deep_merge_mapping(b, c);
    } else {
        let x = a->Mapping_0;
        let y = b->Mapping_0;
        let z = c->Mapping_0;
        let ab = spec_deep_merge(a, b);
        let bc = spec_deep_merge(b, c);
        lemma_merge_preserves_wf(a, b);
        lemma_merge_preserves_wf(b, c);
        lemma_merge_preserves_wf(ab, c);
        let abm = ab->Mapping_0;
        let bcm = bc->Mapping_0;
        let lm = spec_deep_merge(ab, c)->Mapping_0;
        let rm = spec_deep_merge(a, bc)->Mapping_0;
        // the two key sequences agree
        lemma_merged_keys(x, y);
        lemma_merged_keys(y, z);
        lemma_merged_keys(abm, z);
        lemma_merged_keys(x, bcm);
        lemma_new_keys_crux(x, y, z);
        lemma_update_entries(y, z);
        lemma_new_keys_concat(x, spec_update_entries(y, z), spec_added_entries(y, z));
        lemma_new_keys_same_keys(x, spec_update_entries(y, z), y);
        assert(spec_entry_keys(lm) == (spec_entry_keys(x) + spec_new_keys(x, y)) + spec_new_keys(
            abm,
            z,
        ));
        assert(spec_entry_keys(rm) == spec_entry_keys(x) + (spec_new_keys(x, y) + spec_new_keys(
            abm,
            z,
        )));
        assert((spec_entry_keys(x) + spec_new_keys(x, y)) + spec_new_keys(abm, z)
            =~= spec_entry_keys(x) + (spec_new_keys(x, y) + spec_new_keys(abm, z)));
        // the values agree under every key
        assert forall|k: SpecConfig| spec_has_key(lm, k) implies spec_value_of(lm, k)
            == spec_value_of(rm, k) by {
            lemma_merged_lookup(abm, z, k);
            lemma_merged_lookup(x, y, k);
            lemma_merged_lookup(y, z, k);
            lemma_merged_lookup(x, bcm, k);
            if spec_has_key(x, k) && spec_has_key(y, k) && spec_has_key(z, k) {
                lemma_key_index(x, k);
                lemma_key_index(y, k);
                lemma_key_index(z, k);
                let iz = spec_key_index(z, k);
                lemma_unique_key_index(z, iz);
                assert(spec_wf(x[spec_key_index(x, k)].1));
                assert(spec_wf(y[spec_key_index(y, k)].1));
                assert(spec_wf(z[iz].1));
                assert(spec_merge_compatible(spec_value_of(y, z[iz].0), z[iz].1));
                lemma_deep_merge_associative(
                    spec_value_of(x, k),
                    spec_value_of(y, k),
                    spec_value_of(z, k),
                );
            }
        }
        lemma_entries_from_lookup(lm, rm);
    }
}

/// Merges two trees, building a fresh one: `deep_merge(base, over)` is
/// `spec_deep_merge` of their values.
pub fn deep_merge(base: &ConfigValue, overlay: &ConfigValue) -> (r: ConfigValue)
    ensures
        r@ == spec_deep_merge(base@, overlay@),
    decreases *base, *overlay,
{
    match (base, overlay) {
        (ConfigValue::Mapping(b), ConfigValue::Mapping(o)) => {
            let ghost bv = entries_view(b@);
            let ghost ov = entries_view(o@);
            proof {
                lemma_entries_view(b@);
                lemma_entries_view(o@);
            }
            let mut out: Vec<(ConfigValue, ConfigValue)> = Vec::new();
            let mut i: usize = 0;
            #[verifier::loop_isolation(false)]
            while i < b.len()
                invariant
                    i <= b.len(),
                    out@.len() == i,
                    entries_view(out@) == spec_update_entries(bv.take(i as int), ov),
                decreases b.len() - i,
            {
                proof {
                    assert(decreases_to!(*base => *b));
                    assert(decreases_to!(*b => b@[i as int]));
                    assert(decreases_to!(b@[i as int] => b@[i as int].1));
                }
                let merged_val: ConfigValue = match find_key(o, &b[i].0) {
                    Some(j) => deep_merge(&b[i].1, &o[j].1),
                    None => b[i].1.deep_clone(),
                };
                let ghost prev = out@;
                out.push((b[i].0.deep_clone(), merged_val));
                proof {
                    assert(out@.drop_last() =~= prev);
                    assert(bv.take(i + 1).drop_last() =~= bv.take(i as int));
                    assert(bv.take(i + 1).last() == bv[i as int]);
                }
                i = i + 1;
            }
            proof {
                assert(bv.take(b@.len() as int) =~= bv);
            }
            let mut j: usize = 0;
            #[verifier::loop_isolation(false)]
            while j < o.len()
                invariant
                    j <= o.len(),
                    entries_view(out@) == spec_update_entries(bv, ov) + spec_added_entries(
                        bv,
                        ov.take(j as int),
                    ),
                decreases o.len() - j,
            {
                let ghost prev = out@;
                if find_key(b, &o[j].0).is_none() {
                    let k = o[j].0.deep_clone();
                    let v = o[j].1.deep_clone();
                    out.push((k, v));
                    proof {
                        assert(out@.drop_last() =~= prev);
                    }
                }
                proof {
                    assert(ov.take(j + 1).drop_last() =~= ov.take(j as int));
                    assert(ov.take(j + 1).last() == ov[j as int]);
                }
                j = j + 1;
            }
            proof {
                assert(ov.take(o@.len() as int) =~= ov);
            }
            ConfigValue::Mapping(out)
        },
        _ => {
            proof {
                lemma_config_view_variants(*base);
                lemma_config_view_variants(*overlay);
            }
            overlay.deep_clone()
        },
    }
}

} // verus!
