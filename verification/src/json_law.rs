//! What reading, merging, comparing and writing values come to.

use vstd::prelude::*;

use crate::json::{
    all_text, as_unsigned, compact, compact_entries, compact_items, entries_put, entry_at,
    entry_put, entry_texts, item_texts, json_same, keys_ascend, law_put_get, law_put_keeps_order,
    lemma_entry_at, member, merged, num_same, num_text, quoted, strings_of, text_of, Json, NumM,
};
use crate::storage::{
    best_of, member_same, meta_passes, scores_defined, target_key, ByScore, LinkTargetM, Scored,
};
use crate::text::joined;
use crate::text_law::law_joined;

verus! {

/// A member of an object is the value of the first entry with its key; an object
/// without such an entry, and what is no object, has no such member.
pub proof fn law_member(
    a: Seq<(Seq<char>, Json)>,
    key: Seq<char>,
    v: Json,
    b: Seq<(Seq<char>, Json)>,
)
    requires
        forall|i: int| 0 <= i < a.len() ==> (#[trigger] a[i]).0 != key,
    ensures
        member(Json::Object(a + seq![(key, v)] + b), key) == Some(v),
        member(Json::Object(a), key) is None,
        !(v is Object) ==> member(v, key) is None,
{
    let o = a + seq![(key, v)] + b;
    lemma_entry_at(o, key);
    lemma_entry_at(a, key);
    assert(o[a.len() as int] == (key, v));
    if let Some(i) = entry_at(o, key) {
        if i < a.len() {
            assert(o[i] == a[i]);
        }
    }
}

/// Putting entries: of each key that is put the last value stands, and every
/// other member stays.
pub proof fn law_entries_put(o: Seq<(Seq<char>, Json)>, es: Seq<(Seq<char>, Json)>, key: Seq<char>)
    requires
        keys_ascend(o),
    ensures
        keys_ascend(entries_put(o, es)),
        (forall|i: int| 0 <= i < es.len() ==> (#[trigger] es[i]).0 != key) ==> member(
            Json::Object(entries_put(o, es)),
            key,
        ) == member(Json::Object(o), key),
        forall|i: int|
            0 <= i < es.len() && (#[trigger] es[i]).0 == key && (forall|j: int|
                i < j < es.len() ==> (#[trigger] es[j]).0 != key) ==> member(
                Json::Object(entries_put(o, es)),
                key,
            ) == Some(es[i].1),
    decreases es.len(),
{
    if es.len() > 0 {
        let front = es.drop_last();
        let mid = entries_put(o, front);
        let last = es.last();
        law_entries_put(o, front, key);
        law_put_keeps_order(mid, last.0, last.1);
        law_put_get(mid, last.0, last.1, key);
        assert forall|i: int| 0 <= i < front.len() implies #[trigger] front[i] == es[i] by {}
        if forall|i: int| 0 <= i < es.len() ==> (#[trigger] es[i]).0 != key {
            assert(es[es.len() - 1].0 != key);
            assert forall|i: int| 0 <= i < front.len() implies (#[trigger] front[i]).0 != key by {
                assert(es[i].0 != key);
            }
        }
        assert forall|i: int|
            0 <= i < es.len() && (#[trigger] es[i]).0 == key && (forall|j: int|
                i < j < es.len() ==> (#[trigger] es[j]).0 != key) implies member(
            Json::Object(entries_put(o, es)),
            key,
        ) == Some(es[i].1) by {
            if i < front.len() {
                assert(es[es.len() - 1].0 != key);
                assert(front[i] == es[i]);
                assert forall|j: int| i < j < front.len() implies (#[trigger] front[j]).0 != key by {
                    assert(es[j].0 != key);
                }
            }
        }
    }
}

/// Merging: a member that the patch holds is the patch's, any other stays; a patch
/// that is no object, or one for what is no object, takes the place of the whole.
pub proof fn law_merged(target: Json, patch: Json, key: Seq<char>)
    requires
        target matches Json::Object(t) ==> keys_ascend(t),
        patch matches Json::Object(p) ==> keys_ascend(p),
    ensures
        target is Object && patch is Object ==> merged(target, patch) is Object && member(
            merged(target, patch),
            key,
        ) == (if member(patch, key) is Some {
            member(patch, key)
        } else {
            member(target, key)
        }),
        !(target is Object) || !(patch is Object) ==> merged(target, patch) == patch,
{
    if target is Object && patch is Object {
        let t = target->Object_0;
        let p = patch->Object_0;
        law_entries_put(t, p, key);
        lemma_entry_at(p, key);
        match entry_at(p, key) {
            Some(i) => {
                assert forall|j: int| i < j < p.len() implies (#[trigger] p[j]).0 != key by {
                    assert(crate::text::before(p[i].0, p[j].0));
                    crate::text::lemma_before_irreflexive(key);
                }
                assert(p[i].0 == key);
            },
            None => {},
        }
    }
}

/// The strings among values, in order.
pub proof fn law_strings_of(a: Seq<Json>)
    ensures
        strings_of(a) == a.filter(|j: Json| j is Str).map_values(|j: Json| j->Str_0),
    decreases a.len(),
{
    reveal(Seq::filter);
    let f = |j: Json| j is Str;
    let g = |j: Json| j->Str_0;
    if a.len() > 0 {
        law_strings_of(a.drop_last());
        if f(a.last()) {
            assert(a.filter(f).map_values(g) =~= a.drop_last().filter(f).map_values(g).push(
                g(a.last()),
            ));
        }
        assert(strings_of(a) =~= a.filter(f).map_values(g));
    } else {
        assert(strings_of(a) =~= a.filter(f).map_values(g));
    }
}

/// A value without numbers in double precision.
pub open spec fn exact(j: Json) -> bool
    decreases j,
{
    match j {
        Json::Number(NumM::Float { .. }) => false,
        Json::Array(a) => forall|i: int| 0 <= i < a.len() ==> exact(#[trigger] a[i]),
        Json::Object(o) => forall|i: int| 0 <= i < o.len() ==> exact((#[trigger] o[i]).1),
        _ => true,
    }
}

/// Values without numbers in double precision compare as the same exactly if
/// they are equal.
pub proof fn law_same(a: Json, b: Json)
    requires
        exact(a),
    ensures
        json_same(a, b) <==> a == b,
    decreases a,
{
    match (a, b) {
        (Json::Array(x), Json::Array(y)) => {
            if json_same(a, b) || a == b {
                assert forall|i: int| 0 <= i < x.len() implies x[i] == #[trigger] y[i]
                    && json_same(x[i], y[i]) by {
                    assert(exact(x[i]));
                    law_same(x[i], y[i]);
                }
                assert(x =~= y);
            }
        },
        (Json::Object(x), Json::Object(y)) => {
            if json_same(a, b) || a == b {
                assert forall|i: int| 0 <= i < x.len() implies x[i] == #[trigger] y[i]
                    && json_same(x[i].1, y[i].1) by {
                    assert(exact(x[i].1));
                    assert(x[i].0 == y[i].0);
                    assert(decreases_to!(a => x));
                    assert(decreases_to!(x => x[i]));
                    assert(decreases_to!(x[i] => x[i].1));
                    law_same(x[i].1, y[i].1);
                }
                assert(x =~= y);
            }
        },
        _ => {},
    }
}

/// A filter lets a description through exactly if every member that it asks for
/// is there and the same; what a filter of more members lets through, one of fewer
/// does too.
pub proof fn law_filter(filter: Seq<(Seq<char>, Json)>, meta: Seq<(Seq<char>, Json)>, i: int)
    requires
        0 <= i < filter.len(),
        meta_passes(Json::Object(filter), Json::Object(meta)),
    ensures
        member(Json::Object(meta), filter[i].0) is Some,
        json_same(member(Json::Object(meta), filter[i].0)->0, filter[i].1),
        meta_passes(Json::Object(filter.remove(i)), Json::Object(meta)),
        meta_passes(Json::Object(seq![]), Json::Object(meta)),
{
    let f = Json::Object(filter);
    assert(member_same(Json::Object(meta), f->Object_0[i]));
    let less = Json::Object(filter.remove(i));
    assert forall|j: int| 0 <= j < less->Object_0.len() implies member_same(
        Json::Object(meta),
        #[trigger] less->Object_0[j],
    ) by {
        let k = if j < i {
            j
        } else {
            j + 1
        };
        assert(less->Object_0[j] == filter[k]);
        assert(member_same(Json::Object(meta), f->Object_0[k]));
    }
}

/// A filter does not let through what lacks one of its members, or has it with
/// another value.
pub proof fn law_filter_refuses(filter: Seq<(Seq<char>, Json)>, meta: Json, i: int)
    requires
        0 <= i < filter.len(),
        meta is Object,
        member(meta, filter[i].0) matches Some(v) ==> exact(v) && v != filter[i].1,
    ensures
        !meta_passes(Json::Object(filter), meta),
{
    let f = Json::Object(filter);
    if let Some(v) = member(meta, filter[i].0) {
        law_same(v, filter[i].1);
    }
    assert(!member_same(meta, f->Object_0[i]));
}

/// The text in a value: a string is its text, a list or an object the texts of
/// what it holds with a space between two, and everything else is empty.
pub proof fn law_all_text(
    a: Seq<Json>,
    b: Seq<Json>,
    o: Seq<(Seq<char>, Json)>,
    p: Seq<(Seq<char>, Json)>,
    key: Seq<char>,
    j: Json,
)
    ensures
        j matches Json::Str(s) ==> all_text(j) == s,
        j is Null || j is Bool || j is Number ==> all_text(j).len() == 0,
        all_text(Json::Array(seq![j])) == all_text(j),
        all_text(Json::Object(seq![(key, j)])) == all_text(j),
        all_text(Json::Array(seq![])).len() == 0,
        all_text(Json::Object(seq![])).len() == 0,
        a.len() > 0 && b.len() > 0 ==> all_text(Json::Array(a + b)) == all_text(Json::Array(a)) + " "@
            + all_text(Json::Array(b)),
        o.len() > 0 && p.len() > 0 ==> all_text(Json::Object(o + p)) == all_text(Json::Object(o))
            + " "@ + all_text(Json::Object(p)),
{
    let none: Seq<Json> = seq![];
    let bare: Seq<(Seq<char>, Json)> = seq![];
    assert(seq![j].drop_last() =~= none);
    assert(seq![(key, j)].drop_last() =~= bare);
    assert(item_texts(none) =~= seq![]);
    assert(entry_texts(bare) =~= seq![]);
    assert(item_texts(seq![j]) =~= seq![all_text(j)]);
    assert(entry_texts(seq![(key, j)]) =~= seq![all_text(j)]);
    lemma_item_texts(a, b);
    lemma_entry_texts(o, p);
    law_joined(item_texts(a), item_texts(b), all_text(j), " "@);
    law_joined(entry_texts(o), entry_texts(p), all_text(j), " "@);
}

proof fn lemma_item_texts(a: Seq<Json>, b: Seq<Json>)
    ensures
        item_texts(a + b) == item_texts(a) + item_texts(b),
        item_texts(a).len() == a.len(),
        item_texts(b).len() == b.len(),
    decreases a.len() + b.len(),
{
    let none: Seq<Json> = seq![];
    if b.len() > 0 {
        assert((a + b).drop_last() =~= a + b.drop_last());
        lemma_item_texts(a, b.drop_last());
        assert(item_texts(a + b) =~= item_texts(a) + item_texts(b));
    } else {
        assert(a + b =~= a);
        if a.len() > 0 {
            lemma_item_texts(a.drop_last(), b);
        }
        assert(item_texts(a + b) =~= item_texts(a) + item_texts(b));
    }
}

proof fn lemma_entry_texts(a: Seq<(Seq<char>, Json)>, b: Seq<(Seq<char>, Json)>)
    ensures
        entry_texts(a + b) == entry_texts(a) + entry_texts(b),
        entry_texts(a).len() == a.len(),
        entry_texts(b).len() == b.len(),
    decreases a.len() + b.len(),
{
    if b.len() > 0 {
        assert((a + b).drop_last() =~= a + b.drop_last());
        lemma_entry_texts(a, b.drop_last());
        assert(entry_texts(a + b) =~= entry_texts(a) + entry_texts(b));
    } else {
        assert(a + b =~= a);
        if a.len() > 0 {
            lemma_entry_texts(a.drop_last(), b);
        }
        assert(entry_texts(a + b) =~= entry_texts(a) + entry_texts(b));
    }
}

/// A value as text: a list in brackets and an object in braces, what they hold in
/// its order with a comma between two, each key in quotes before its value and a
/// colon between; integers in digits.
pub proof fn law_compact(
    a: Seq<Json>,
    b: Seq<Json>,
    o: Seq<(Seq<char>, Json)>,
    p: Seq<(Seq<char>, Json)>,
    key: Seq<char>,
    j: Json,
) -> (r: (Seq<char>, Seq<char>, Seq<char>, Seq<char>))
    ensures
        compact(Json::Array(seq![])) == "["@ + "]"@,
        compact(Json::Object(seq![])) == "{"@ + "}"@,
        compact(Json::Array(seq![j])) == "["@ + compact(j) + "]"@,
        compact(Json::Object(seq![(key, j)])) == "{"@ + (quoted(key) + ":"@ + compact(j)) + "}"@,
        compact(Json::Array(a)) == "["@ + r.0 + "]"@,
        compact(Json::Array(b)) == "["@ + r.1 + "]"@,
        a.len() > 0 && b.len() > 0 ==> compact(Json::Array(a + b)) == "["@ + (r.0 + ","@ + r.1) + "]"@,
        compact(Json::Object(o)) == "{"@ + r.2 + "}"@,
        compact(Json::Object(p)) == "{"@ + r.3 + "}"@,
        o.len() > 0 && p.len() > 0 ==> compact(Json::Object(o + p)) == "{"@ + (r.2 + ","@ + r.3)
            + "}"@,
        compact(Json::Null) == "null"@,
        compact(Json::Bool(true)) == "true"@,
        compact(Json::Bool(false)) == "false"@,
        compact(Json::Str(key)) == quoted(key),
{
    let none: Seq<Json> = seq![];
    let bare: Seq<(Seq<char>, Json)> = seq![];
    assert(seq![j].drop_last() =~= none);
    assert(seq![(key, j)].drop_last() =~= bare);
    assert(compact_items(none) =~= seq![]);
    assert(compact_entries(bare) =~= seq![]);
    assert(compact_items(seq![j]) =~= seq![compact(j)]);
    let e = quoted(key) + ":"@ + compact(j);
    assert(compact_entries(seq![(key, j)]) =~= seq![e]);
    lemma_compact_items(a, b);
    lemma_compact_entries(o, p);
    law_joined(compact_items(a), compact_items(b), compact(j), ","@);
    law_joined(compact_entries(o), compact_entries(p), e, ","@);
    assert(compact(Json::Array(none)) =~= "["@ + "]"@);
    assert(compact(Json::Object(bare)) =~= "{"@ + "}"@);
    (
        joined(compact_items(a), ","@),
        joined(compact_items(b), ","@),
        joined(compact_entries(o), ","@),
        joined(compact_entries(p), ","@),
    )
}

proof fn lemma_compact_items(a: Seq<Json>, b: Seq<Json>)
    ensures
        compact_items(a + b) == compact_items(a) + compact_items(b),
        compact_items(a).len() == a.len(),
        compact_items(b).len() == b.len(),
    decreases a.len() + b.len(),
{
    if b.len() > 0 {
        assert((a + b).drop_last() =~= a + b.drop_last());
        lemma_compact_items(a, b.drop_last());
        assert(compact_items(a + b) =~= compact_items(a) + compact_items(b));
    } else {
        assert(a + b =~= a);
        if a.len() > 0 {
            lemma_compact_items(a.drop_last(), b);
        }
        assert(compact_items(a + b) =~= compact_items(a) + compact_items(b));
    }
}

proof fn lemma_compact_entries(a: Seq<(Seq<char>, Json)>, b: Seq<(Seq<char>, Json)>)
    ensures
        compact_entries(a + b) == compact_entries(a) + compact_entries(b),
        compact_entries(a).len() == a.len(),
        compact_entries(b).len() == b.len(),
    decreases a.len() + b.len(),
{
    if b.len() > 0 {
        assert((a + b).drop_last() =~= a + b.drop_last());
        lemma_compact_entries(a, b.drop_last());
        assert(compact_entries(a + b) =~= compact_entries(a) + compact_entries(b));
    } else {
        assert(a + b =~= a);
        if a.len() > 0 {
            lemma_compact_entries(a.drop_last(), b);
        }
        assert(compact_entries(a + b) =~= compact_entries(a) + compact_entries(b));
    }
}

/// Integers are written in digits, with a minus sign where they are below zero,
/// and read as unsigned only where they are stored as such.
pub proof fn law_numbers(n: u64, m: i64)
    ensures
        crate::text_law::number_of(compact(Json::Number(NumM::Pos(n)))) == n,
        m < 0 ==> compact(Json::Number(NumM::Neg(m))).first() == '-'
            && crate::text_law::number_of(compact(Json::Number(NumM::Neg(m))).drop_first()) == -m,
        as_unsigned(Json::Number(NumM::Pos(n))) == Some(n),
        as_unsigned(Json::Number(NumM::Neg(m))) is None,
{
    crate::text_law::law_decimal(n as nat);
    if m < 0 {
        crate::text_law::law_decimal((-m) as nat);
        assert(compact(Json::Number(NumM::Neg(m))).drop_first() =~= crate::text::decimal((-m) as nat));
    }
}

/// Links are kept apart by what they lead to: a page by its identity, a block by
/// that of its page and its own, a title that no page has by itself.
pub proof fn law_target_key(d: Seq<char>, b: Seq<char>, s: Seq<char>)
    ensures
        target_key(LinkTargetM::Doc(d)) == d,
        target_key(LinkTargetM::Broken(s)) == s,
        (d + "#"@).is_prefix_of(target_key(LinkTargetM::Block(d, b))),
        b.is_suffix_of(target_key(LinkTargetM::Block(d, b))),
        target_key(LinkTargetM::Block(d, b)).len() == d.len() + 1 + b.len(),
{
    reveal_strlit("#");
    let k = target_key(LinkTargetM::Block(d, b));
    assert((d + "#"@).is_prefix_of(k));
    assert(b.is_suffix_of(k));
}

/// The best are as many as are asked for, or all that there are. None is taken
/// twice, and where all scores are numbers none that is left out has a higher
/// score than one that is taken.
pub proof fn law_best_of<T: Scored>(src: Seq<T>, top_k: usize, r: Seq<T>) -> (places: Seq<int>)
    requires
        best_of(src, top_k, r),
    ensures
        r.len() == if top_k < src.len() {
            top_k as nat
        } else {
            src.len()
        },
        places.len() == src.len(),
        places.no_duplicates(),
        forall|i: int| 0 <= i < places.len() ==> 0 <= #[trigger] places[i] < src.len(),
        forall|i: int| 0 <= i < r.len() ==> #[trigger] r[i] == src[places[i]],
        scores_defined(src) ==> forall|i: int, j: int|
            0 <= i < j < places.len() ==> !(#[trigger] src[places[i]]).spec_score().below(
                (#[trigger] src[places[j]]).spec_score(),
            ),
{
    let all = choose|all: Seq<T>| #[trigger]
        crate::sort::sorted_from(ByScore {  }, src, all) && r == all.take(
            if top_k < all.len() {
                top_k as int
            } else {
                all.len() as int
            },
        );
    let places = choose|perm: Seq<int>| #[trigger]
        crate::sort::arranged(src, all, perm) && (crate::sort::consistent(ByScore {  }, src)
            ==> crate::sort::in_order(ByScore {  }, all, perm));
    if scores_defined(src) {
        crate::storage::law_scores_consistent(src);
    }
    places
}

/// Numbers are the same if they are integers and equal, or in double precision and
/// level; an integer is never the same as a number in double precision.
pub proof fn law_same_numbers(n: u64, m: u64, x: NumM, y: NumM)
    ensures
        json_same(Json::Number(NumM::Pos(n)), Json::Number(NumM::Pos(m))) <==> n == m,
        x is Float && !(y is Float) ==> !json_same(Json::Number(x), Json::Number(y)) && !json_same(
            Json::Number(y),
            Json::Number(x),
        ),
        x matches NumM::Float { bits: a, .. } ==> (y matches NumM::Float { bits: b, .. } ==> (
        json_same(Json::Number(x), Json::Number(y)) <==> crate::float::double_level(a, b))),
{
}

/// Of a filter and a description only one of which is an object, the filter lets
/// nothing through; one that is no object asks that the description is the same.
pub proof fn law_filter_plain(filter: Json, meta: Json)
    ensures
        (filter is Object) != (meta is Object) ==> !meta_passes(filter, meta),
        !(filter is Object) && exact(filter) ==> (meta_passes(filter, meta) <==> meta == filter),
{
    if !(filter is Object) && exact(filter) {
        law_same(filter, meta);
    }
}

} // verus!
