//! Differential selection over two completed frequency tables.
//!
//! A key of the source table is emitted when its source count reaches
//! `min_source_count`, its subtract count does not exceed
//! `max_subtract_count`, and the source count exceeds the subtract count by
//! at least `difference_threshold`.  The difference floors at zero: a
//! subtract count above the source count never underflows, it simply fails
//! the threshold (unless the threshold is zero and the other two rules pass).

use vstd::prelude::*;

use crate::table::FrequencyTable;

verus! {

/// The source-minus-subtract difference, floored at zero.
pub open spec fn clamped_difference(source_count: int, subtract_count: int) -> int {
    if subtract_count > source_count {
        0
    } else {
        source_count - subtract_count
    }
}

/// The three-predicate threshold rule deciding whether a key is emitted.
pub open spec fn selected(
    source_count: int,
    subtract_count: int,
    min_source_count: int,
    max_subtract_count: int,
    difference_threshold: int,
) -> bool {
    &&& source_count >= min_source_count
    &&& subtract_count <= max_subtract_count
    &&& clamped_difference(source_count, subtract_count) >= difference_threshold
}

/// Decide the threshold rule on a pair of counts.
pub fn passes_threshold(
    source_count: u32,
    subtract_count: u32,
    min_source_count: u32,
    max_subtract_count: u32,
    difference_threshold: u32,
) -> (r: bool)
    ensures
        r == selected(
            source_count as int,
            subtract_count as int,
            min_source_count as int,
            max_subtract_count as int,
            difference_threshold as int,
        ),
{
    let difference: u32 = if subtract_count > source_count {
        0
    } else {
        source_count - subtract_count
    };
    source_count >= min_source_count && subtract_count <= max_subtract_count && difference
        >= difference_threshold
}

/// The selection output over the key list `keys`: for each listed key that
/// the rule selects, the triple of the key, its source count and its subtract
/// count, in list order.
pub open spec fn select_from(
    keys: Seq<u64>,
    source: FrequencyTable,
    subtract: FrequencyTable,
    min_source_count: u16,
    max_subtract_count: u16,
    difference_threshold: u16,
) -> Seq<(u64, u16, u16)>
    decreases keys.len(),
{
    if keys.len() == 0 {
        Seq::empty()
    } else {
        let rest = select_from(
            keys.drop_last(),
            source,
            subtract,
            min_source_count,
            max_subtract_count,
            difference_threshold,
        );
        let key = keys.last();
        if selected(
            source.count_of(key) as int,
            subtract.count_of(key) as int,
            min_source_count as int,
            max_subtract_count as int,
            difference_threshold as int,
        ) {
            rest.push((key, source.count_of(key), subtract.count_of(key)))
        } else {
            rest
        }
    }
}

/// The full selection output: the rule applied to every key of the source
/// table, in the table's key order.
pub open spec fn spec_select(
    source: FrequencyTable,
    subtract: FrequencyTable,
    min_source_count: u16,
    max_subtract_count: u16,
    difference_threshold: u16,
) -> Seq<(u64, u16, u16)> {
    select_from(
        source.key_seq(),
        source,
        subtract,
        min_source_count,
        max_subtract_count,
        difference_threshold,
    )
}

/// Run the selector over two completed tables: emit, for every source-table
/// key passing the threshold rule, the key with its source and subtract
/// counts.  Keys absent from the subtract table count zero there.
pub fn select(
    source: &FrequencyTable,
    subtract: &FrequencyTable,
    min_source_count: u16,
    max_subtract_count: u16,
    difference_threshold: u16,
) -> (r: Vec<(u64, u16, u16)>)
    requires
        source.wf(),
        subtract.wf(),
    ensures
        r@ == spec_select(
            *source,
            *subtract,
            min_source_count,
            max_subtract_count,
            difference_threshold,
        ),
{
    let ghost keys = source.key_seq();
    let mut r: Vec<(u64, u16, u16)> = Vec::new();
    let n = source.num_keys();
    let mut i: usize = 0;
    proof {
        assert(keys.take(0) =~= Seq::<u64>::empty());
    }
    while i < n
        invariant
            source.wf(),
            subtract.wf(),
            keys == source.key_seq(),
            n == keys.len(),
            i <= n,
            r@ == select_from(
                keys.take(i as int),
                *source,
                *subtract,
                min_source_count,
                max_subtract_count,
                difference_threshold,
            ),
        decreases n - i,
    {
        let key = source.key_at(i);
        let source_count = source.lookup(key);
        let subtract_count = subtract.lookup(key);
        proof {
            assert(keys.take(i + 1).drop_last() =~= keys.take(i as int));
            assert(keys.take(i + 1).last() == keys[i as int]);
        }
        if passes_threshold(
            source_count as u32,
            subtract_count as u32,
            min_source_count as u32,
            max_subtract_count as u32,
            difference_threshold as u32,
        ) {
            r.push((key, source_count, subtract_count));
        }
        i = i + 1;
    }
    proof {
        assert(keys.take(n as int) =~= keys);
    }
    r
}

/// What the selection output holds, exactly: a triple occurs in it if and
/// only if its key is listed in the source table, the two counts are the
/// tables' counts of that key, and the threshold rule selects them.  That
/// each selected key occurs at most once is `lemma_select_keys_unique`.
pub proof fn lemma_select_characterization(
    keys: Seq<u64>,
    source: FrequencyTable,
    subtract: FrequencyTable,
    min_source_count: u16,
    max_subtract_count: u16,
    difference_threshold: u16,
    key: u64,
    source_count: u16,
    subtract_count: u16,
)
    ensures
        select_from(
            keys,
            source,
            subtract,
            min_source_count,
            max_subtract_count,
            difference_threshold,
        ).contains((key, source_count, subtract_count)) <==> {
            &&& keys.contains(key)
            &&& source_count == source.count_of(key)
            &&& subtract_count == subtract.count_of(key)
            &&& selected(
                source.count_of(key) as int,
                subtract.count_of(key) as int,
                min_source_count as int,
                max_subtract_count as int,
                difference_threshold as int,
            )
        },
    decreases keys.len(),
{
    if keys.len() > 0 {
        let t = keys.drop_last();
        let last = keys.last();
        lemma_select_characterization(
            t,
            source,
            subtract,
            min_source_count,
            max_subtract_count,
            difference_threshold,
            key,
            source_count,
            subtract_count,
        );
        let rest = select_from(
            t,
            source,
            subtract,
            min_source_count,
            max_subtract_count,
            difference_threshold,
        );
        let triple = (key, source_count, subtract_count);
        if selected(
            source.count_of(last) as int,
            subtract.count_of(last) as int,
            min_source_count as int,
            max_subtract_count as int,
            difference_threshold as int,
        ) {
            let lt = (last, source.count_of(last), subtract.count_of(last));
            assert forall|x: (u64, u16, u16)| rest.push(lt).contains(x) implies (rest.contains(x)
                || x == lt) by {
                let j = choose|j: int| 0 <= j < rest.push(lt).len() && rest.push(lt)[j] == x;
                if j < rest.len() {
                    assert(rest[j] == x);
                }
            }
            if rest.contains(triple) {
                let j = choose|j: int| 0 <= j < rest.len() && rest[j] == triple;
                assert(rest.push(lt)[j] == triple);
            }
            if triple == lt {
                assert(rest.push(lt).last() == triple);
            }
            if keys.contains(key) && key != last {
                let j = choose|j: int| 0 <= j < keys.len() && keys[j] == key;
                assert(t[j] == key);
            }
            if t.contains(key) {
                let j = choose|j: int| 0 <= j < t.len() && t[j] == key;
                assert(keys[j] == key);
            }
        } else {
            if keys.contains(key) && key != last {
                let j = choose|j: int| 0 <= j < keys.len() && keys[j] == key;
                assert(t[j] == key);
            }
            if t.contains(key) {
                let j = choose|j: int| 0 <= j < t.len() && t[j] == key;
                assert(keys[j] == key);
            }
        }
    }
}

/// Over a duplicate-free key list the selection output carries pairwise
/// distinct keys, each taken from the list.
proof fn lemma_select_from_keys_unique(
    keys: Seq<u64>,
    source: FrequencyTable,
    subtract: FrequencyTable,
    min_source_count: u16,
    max_subtract_count: u16,
    difference_threshold: u16,
)
    requires
        keys.no_duplicates(),
    ensures
        forall|i: int|
            0 <= i < select_from(
                keys,
                source,
                subtract,
                min_source_count,
                max_subtract_count,
                difference_threshold,
            ).len() ==> keys.contains(
                #[trigger] select_from(
                    keys,
                    source,
                    subtract,
                    min_source_count,
                    max_subtract_count,
                    difference_threshold,
                )[i].0,
            ),
        forall|i: int, j: int|
            0 <= i < j < select_from(
                keys,
                source,
                subtract,
                min_source_count,
                max_subtract_count,
                difference_threshold,
            ).len() ==> #[trigger] select_from(
                keys,
                source,
                subtract,
                min_source_count,
                max_subtract_count,
                difference_threshold,
            )[i].0 != #[trigger] select_from(
                keys,
                source,
                subtract,
                min_source_count,
                max_subtract_count,
                difference_threshold,
            )[j].0,
    decreases keys.len(),
{
    if keys.len() > 0 {
        let t = keys.drop_last();
        let last = keys.last();
        assert(t.no_duplicates()) by {
            assert forall|i: int, j: int|
                0 <= i < t.len() && 0 <= j < t.len() && i != j implies t[i] != t[j] by {
                assert(keys[i] == t[i] && keys[j] == t[j]);
            }
        }
        lemma_select_from_keys_unique(
            t,
            source,
            subtract,
            min_source_count,
            max_subtract_count,
            difference_threshold,
        );
        let rest = select_from(
            t,
            source,
            subtract,
            min_source_count,
            max_subtract_count,
            difference_threshold,
        );
        let out = select_from(
            keys,
            source,
            subtract,
            min_source_count,
            max_subtract_count,
            difference_threshold,
        );
        assert forall|i: int| 0 <= i < out.len() implies keys.contains(#[trigger] out[i].0) by {
            if i < rest.len() {
                assert(out[i] == rest[i]);
                assert(t.contains(rest[i].0));
                let w = choose|w: int| 0 <= w < t.len() && t[w] == rest[i].0;
                assert(keys[w] == rest[i].0);
            } else {
                assert(out[i].0 == last);
                assert(keys[keys.len() - 1] == last);
            }
        }
        assert forall|i: int, j: int| 0 <= i < j < out.len() implies out[i].0 != out[j].0 by {
            if j < rest.len() {
                assert(out[i] == rest[i] && out[j] == rest[j]);
            } else {
                assert(out[j].0 == last);
                assert(out[i] == rest[i]);
                assert(t.contains(rest[i].0));
                let w = choose|w: int| 0 <= w < t.len() && t[w] == rest[i].0;
                assert(keys[w] == rest[i].0);
                assert(w < keys.len() - 1);
            }
        }
    }
}

/// Each source key yields at most one output line: over a well-formed source
/// table the keys of the selection output are pairwise distinct.
pub proof fn lemma_select_keys_unique(
    source: FrequencyTable,
    subtract: FrequencyTable,
    min_source_count: u16,
    max_subtract_count: u16,
    difference_threshold: u16,
)
    requires
        source.wf(),
    ensures
        forall|i: int, j: int|
            0 <= i < j < spec_select(
                source,
                subtract,
                min_source_count,
                max_subtract_count,
                difference_threshold,
            ).len() ==> #[trigger] spec_select(
                source,
                subtract,
                min_source_count,
                max_subtract_count,
                difference_threshold,
            )[i].0 != #[trigger] spec_select(
                source,
                subtract,
                min_source_count,
                max_subtract_count,
                difference_threshold,
            )[j].0,
{
    source.lemma_keys_no_duplicates();
    lemma_select_from_keys_unique(
        source.key_seq(),
        source,
        subtract,
        min_source_count,
        max_subtract_count,
        difference_threshold,
    );
}

/// Selection is idempotent: two runs over the same completed tables with the
/// same parameters produce the same output sequence, hence the same set of
/// emitted keys.
pub proof fn lemma_select_idempotent(
    r1: Seq<(u64, u16, u16)>,
    r2: Seq<(u64, u16, u16)>,
    source: FrequencyTable,
    subtract: FrequencyTable,
    min_source_count: u16,
    max_subtract_count: u16,
    difference_threshold: u16,
)
    requires
        r1 == spec_select(
            source,
            subtract,
            min_source_count,
            max_subtract_count,
            difference_threshold,
        ),
        r2 == spec_select(
            source,
            subtract,
            min_source_count,
            max_subtract_count,
            difference_threshold,
        ),
    ensures
        r1 == r2,
        r1.to_multiset() == r2.to_multiset(),
{
}

/// Boundary of the rule: with a zero difference threshold and the subtract
/// bound at the count cap, a key is selected exactly when its source count
/// reaches `min_source_count`, whatever its subtract count.
pub proof fn lemma_zero_threshold_admits(
    source_count: u16,
    subtract_count: u16,
    min_source_count: u16,
)
    ensures
        selected(
            source_count as int,
            subtract_count as int,
            min_source_count as int,
            65535,
            0,
        ) <==> source_count >= min_source_count,
{
}

/// The same boundary at the tables: under those parameters the selection
/// holds a listed key, with its two counts, exactly when its source count
/// reaches `min_source_count` — the subtract table has no influence.
pub proof fn lemma_zero_threshold_selects_by_source(
    source: FrequencyTable,
    subtract: FrequencyTable,
    min_source_count: u16,
    key: u64,
)
    ensures
        spec_select(source, subtract, min_source_count, 65535u16, 0u16).contains(
            (key, source.count_of(key), subtract.count_of(key)),
        ) <==> (source.key_seq().contains(key) && source.count_of(key) >= min_source_count),
{
    lemma_select_characterization(
        source.key_seq(),
        source,
        subtract,
        min_source_count,
        65535u16,
        0u16,
        key,
        source.count_of(key),
        subtract.count_of(key),
    );
    lemma_zero_threshold_admits(source.count_of(key), subtract.count_of(key), min_source_count);
}

} // verus!
