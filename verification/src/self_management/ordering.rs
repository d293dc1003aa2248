//! The order of the channels of one category: by name, byte by byte, and
//! among equal names by the order in which the channels were listed.

use vstd::prelude::*;
use vstd::utf8::encode_utf8;
use crate::self_management::policy::Channel;

verus! {

/// Whether the bytes `a` stand before the bytes `b` or equal them, in the
/// order of a dictionary.
pub open spec fn bytes_le(a: Seq<u8>, b: Seq<u8>) -> bool
    decreases a.len(),
{
    if a.len() == 0 {
        true
    } else if b.len() == 0 {
        false
    } else if a[0] != b[0] {
        a[0] < b[0]
    } else {
        bytes_le(a.drop_first(), b.drop_first())
    }
}

/// The bytes by which a channel is ordered: its name in UTF-8.
pub open spec fn name_key(channel: Channel) -> Seq<u8> {
    encode_utf8(channel.name@)
}

/// The keys of the channels `channels`, one for one.
pub open spec fn keys_of(channels: Seq<Channel>) -> Seq<Seq<u8>> {
    Seq::new(channels.len(), |i: int| name_key(channels[i]))
}

/// Whether the channel stands directly under the category `category`.
pub open spec fn in_category(channel: Channel, category: u64) -> bool {
    channel.parent_id == Some(category)
}

/// The places in `channels` of the channels of the category, ascending.
pub open spec fn siblings(channels: Seq<Channel>, category: u64) -> Seq<usize>
    decreases channels.len(),
{
    if channels.len() == 0 {
        Seq::empty()
    } else if in_category(channels.last(), category) {
        siblings(channels.drop_last(), category).push((channels.len() - 1) as usize)
    } else {
        siblings(channels.drop_last(), category)
    }
}

/// Where `x` goes in the ordered places `order`: behind the last place whose
/// key stands before the key of `x` or equals it.
pub open spec fn slot(order: Seq<usize>, keys: Seq<Seq<u8>>, x: usize) -> int
    decreases order.len(),
{
    if order.len() == 0 {
        0
    } else if bytes_le(keys[order.last() as int], keys[x as int]) {
        order.len() as int
    } else {
        slot(order.drop_last(), keys, x)
    }
}

/// The places `list` in the order of their keys, each put behind the places
/// that came before it and whose key is not greater.
pub open spec fn ranked(list: Seq<usize>, keys: Seq<Seq<u8>>) -> Seq<usize>
    decreases list.len(),
{
    if list.len() == 0 {
        Seq::empty()
    } else {
        let before = ranked(list.drop_last(), keys);
        before.insert(slot(before, keys, list.last()), list.last())
    }
}

/// The places of the channels of the category, in the order of their names.
pub open spec fn sorted_siblings(channels: Seq<Channel>, category: u64) -> Seq<usize> {
    ranked(siblings(channels, category), keys_of(channels))
}

/// Each channel of the category with its place in the order of the names,
/// counted from 0.
pub open spec fn positions(channels: Seq<Channel>, category: u64) -> Seq<(u64, u64)> {
    let order = sorted_siblings(channels, category);
    Seq::new(order.len(), |k: int| (channels[order[k] as int].id, k as u64))
}

/// Whether the keys of the places `order` ascend.
pub open spec fn ordered(order: Seq<usize>, keys: Seq<Seq<u8>>) -> bool {
    forall|a: int, b: int|
        0 <= a < b < order.len() ==> bytes_le(
            #[trigger] keys[order[a] as int],
            #[trigger] keys[order[b] as int],
        )
}

/// Whether places with equal keys stand in ascending order.
pub open spec fn stable(order: Seq<usize>, keys: Seq<Seq<u8>>) -> bool {
    forall|a: int, b: int|
        0 <= a < b < order.len() && keys[#[trigger] order[a] as int] == keys[#[trigger] order[b] as int]
            ==> order[a] < order[b]
}

/// Whether the places `list` ascend and lie below `bound`.
pub open spec fn ascending(list: Seq<usize>, bound: int) -> bool {
    &&& forall|a: int, b: int| 0 <= a < b < list.len() ==> #[trigger] list[a] < #[trigger] list[b]
    &&& forall|a: int| 0 <= a < list.len() ==> #[trigger] list[a] < bound
}

/// Every text of bytes stands before or equals itself.
pub proof fn lemma_bytes_le_refl(a: Seq<u8>)
    ensures
        bytes_le(a, a),
    decreases a.len(),
{
    if a.len() > 0 {
        lemma_bytes_le_refl(a.drop_first());
    }
}

/// Of two texts of bytes one stands before the other or equals it.
pub proof fn lemma_bytes_le_total(a: Seq<u8>, b: Seq<u8>)
    ensures
        bytes_le(a, b) || bytes_le(b, a),
    decreases a.len(),
{
    if a.len() > 0 && b.len() > 0 && a[0] == b[0] {
        lemma_bytes_le_total(a.drop_first(), b.drop_first());
    }
}

/// What stands before a text that stands before a third stands before the third.
pub proof fn lemma_bytes_le_trans(a: Seq<u8>, b: Seq<u8>, c: Seq<u8>)
    requires
        bytes_le(a, b),
        bytes_le(b, c),
    ensures
        bytes_le(a, c),
    decreases a.len(),
{
    if a.len() > 0 && b.len() > 0 && c.len() > 0 && a[0] == b[0] && b[0] == c[0] {
        lemma_bytes_le_trans(a.drop_first(), b.drop_first(), c.drop_first());
    }
}

/// What `slot` finds: every place from it on has a greater key, and the place
/// before it has none.
pub proof fn lemma_slot(order: Seq<usize>, keys: Seq<Seq<u8>>, x: usize)
    ensures
        0 <= slot(order, keys, x) <= order.len(),
        forall|k: int|
            slot(order, keys, x) <= k < order.len() ==> !bytes_le(
                keys[#[trigger] order[k] as int],
                keys[x as int],
            ),
        slot(order, keys, x) > 0 ==> bytes_le(
            keys[order[slot(order, keys, x) - 1] as int],
            keys[x as int],
        ),
    decreases order.len(),
{
    if order.len() > 0 && !bytes_le(keys[order.last() as int], keys[x as int]) {
        let rest = order.drop_last();
        lemma_slot(rest, keys, x);
        assert forall|k: int| slot(order, keys, x) <= k < order.len() implies !bytes_le(
            keys[#[trigger] order[k] as int],
            keys[x as int],
        ) by {
            if k < order.len() - 1 {
                assert(order[k] == rest[k]);
            }
        }
        if slot(order, keys, x) > 0 {
            assert(order[slot(order, keys, x) - 1] == rest[slot(rest, keys, x) - 1]);
        }
    }
}

/// The index found by going back from the end over the greater keys is `slot`.
pub proof fn lemma_slot_at(order: Seq<usize>, keys: Seq<Seq<u8>>, x: usize, j: int)
    requires
        0 <= j <= order.len(),
        forall|k: int| j <= k < order.len() ==> !bytes_le(keys[#[trigger] order[k] as int], keys[x as int]),
        j > 0 ==> bytes_le(keys[order[j - 1] as int], keys[x as int]),
    ensures
        slot(order, keys, x) == j,
    decreases order.len(),
{
    if order.len() > 0 && j < order.len() {
        let rest = order.drop_last();
        assert(!bytes_le(keys[order[order.len() - 1] as int], keys[x as int]));
        assert forall|k: int| j <= k < rest.len() implies !bytes_le(
            keys[#[trigger] rest[k] as int],
            keys[x as int],
        ) by {
            assert(rest[k] == order[k]);
        }
        if j > 0 {
            assert(rest[j - 1] == order[j - 1]);
        }
        lemma_slot_at(rest, keys, x, j);
    }
}

/// Putting a place greater than all others into its slot keeps the order of
/// the keys and the order among equal keys.
pub proof fn lemma_insert_keeps_order(order: Seq<usize>, keys: Seq<Seq<u8>>, x: usize)
    requires
        ordered(order, keys),
        stable(order, keys),
        forall|k: int| 0 <= k < order.len() ==> #[trigger] order[k] < x,
    ensures
        ordered(order.insert(slot(order, keys, x), x), keys),
        stable(order.insert(slot(order, keys, x), x), keys),
{
    lemma_slot(order, keys, x);
    let j = slot(order, keys, x);
    let p = order.insert(j, x);
    assert forall|a: int, b: int| 0 <= a < b < p.len() implies bytes_le(
        #[trigger] keys[p[a] as int],
        #[trigger] keys[p[b] as int],
    ) by {
        if b < j {
            assert(p[a] == order[a] && p[b] == order[b]);
        } else if b == j {
            assert(p[a] == order[a]);
            if a < j - 1 {
                assert(bytes_le(keys[order[a] as int], keys[order[j - 1] as int]));
                lemma_bytes_le_trans(
                    keys[order[a] as int],
                    keys[order[j - 1] as int],
                    keys[x as int],
                );
            }
        } else if a < j {
            assert(p[a] == order[a] && p[b] == order[b - 1]);
        } else if a == j {
            assert(p[b] == order[b - 1]);
            assert(!bytes_le(keys[order[b - 1] as int], keys[x as int]));
            lemma_bytes_le_total(keys[order[b - 1] as int], keys[x as int]);
        } else {
            assert(p[a] == order[a - 1] && p[b] == order[b - 1]);
        }
    }
    assert forall|a: int, b: int|
        0 <= a < b < p.len() && keys[#[trigger] p[a] as int] == keys[#[trigger] p[b] as int] implies p[a]
        < p[b] by {
        if b < j {
            assert(p[a] == order[a] && p[b] == order[b]);
        } else if b == j {
            assert(p[a] == order[a]);
        } else if a < j {
            assert(p[a] == order[a] && p[b] == order[b - 1]);
        } else if a == j {
            assert(p[b] == order[b - 1]);
            assert(!bytes_le(keys[order[b - 1] as int], keys[x as int]));
            lemma_bytes_le_refl(keys[x as int]);
        } else {
            assert(p[a] == order[a - 1] && p[b] == order[b - 1]);
        }
    }
}

/// The ranked places are the given places, each once, in the order of their
/// keys, and in ascending order among equal keys.
pub proof fn lemma_ranked(list: Seq<usize>, keys: Seq<Seq<u8>>)
    requires
        ascending(list, keys.len() as int),
    ensures
        ranked(list, keys).len() == list.len(),
        forall|v: usize| ranked(list, keys).contains(v) <==> list.contains(v),
        ordered(ranked(list, keys), keys),
        stable(ranked(list, keys), keys),
    decreases list.len(),
{
    if list.len() > 0 {
        let rest = list.drop_last();
        let x = list.last();
        let before = ranked(rest, keys);
        assert(ascending(rest, keys.len() as int)) by {
            assert forall|a: int, b: int| 0 <= a < b < rest.len() implies #[trigger] rest[a]
                < #[trigger] rest[b] by {
                assert(rest[a] == list[a] && rest[b] == list[b]);
            }
            assert forall|a: int| 0 <= a < rest.len() implies #[trigger] rest[a] < keys.len() by {
                assert(rest[a] == list[a]);
            }
        }
        lemma_ranked(rest, keys);
        lemma_slot(before, keys, x);
        let j = slot(before, keys, x);
        let after = before.insert(j, x);
        assert forall|k: int| 0 <= k < before.len() implies #[trigger] before[k] < x by {
            assert(before.contains(before[k]));
            assert(rest.contains(before[k]));
            let i = choose|i: int| 0 <= i < rest.len() && rest[i] == before[k];
            assert(list[i] == rest[i]);
        }
        lemma_insert_keeps_order(before, keys, x);
        assert forall|v: usize| after.contains(v) <==> list.contains(v) by {
            if after.contains(v) {
                let i = choose|i: int| 0 <= i < after.len() && after[i] == v;
                if i < j {
                    assert(before[i] == v);
                    assert(before.contains(v));
                } else if i > j {
                    assert(before[i - 1] == v);
                    assert(before.contains(v));
                }
                if v != x {
                    assert(rest.contains(v));
                    let i2 = choose|i2: int| 0 <= i2 < rest.len() && rest[i2] == v;
                    assert(list[i2] == v);
                } else {
                    assert(list[list.len() - 1] == v);
                }
            }
            if list.contains(v) {
                let i = choose|i: int| 0 <= i < list.len() && list[i] == v;
                if i < list.len() - 1 {
                    assert(rest[i] == v);
                    assert(rest.contains(v));
                    assert(before.contains(v));
                    let i2 = choose|i2: int| 0 <= i2 < before.len() && before[i2] == v;
                    if i2 < j {
                        assert(after[i2] == v);
                    } else {
                        assert(after[i2 + 1] == v);
                    }
                } else {
                    assert(after[j] == v);
                }
            }
        }
    }
}

/// The places of the channels of a category ascend, and are the places of
/// exactly those channels.
pub proof fn lemma_siblings(channels: Seq<Channel>, category: u64)
    requires
        channels.len() <= usize::MAX,
    ensures
        ascending(siblings(channels, category), channels.len() as int),
        forall|i: int|
            0 <= i < channels.len() ==> (siblings(channels, category).contains(i as usize)
                <==> in_category(#[trigger] channels[i], category)),
    decreases channels.len(),
{
    if channels.len() > 0 {
        let rest = channels.drop_last();
        let last = (channels.len() - 1) as usize;
        lemma_siblings(rest, category);
        let s = siblings(channels, category);
        let r = siblings(rest, category);
        assert(ascending(s, channels.len() as int)) by {
            assert forall|a: int, b: int| 0 <= a < b < s.len() implies #[trigger] s[a] < #[trigger] s[b] by {
                if b < r.len() {
                    assert(s[a] == r[a] && s[b] == r[b]);
                } else {
                    assert(s[a] == r[a]);
                    assert(r[a] < rest.len());
                }
            }
            assert forall|a: int| 0 <= a < s.len() implies #[trigger] s[a] < channels.len() by {
                if a < r.len() {
                    assert(s[a] == r[a]);
                    assert(r[a] < rest.len());
                }
            }
        }
        assert forall|i: int| 0 <= i < channels.len() implies (s.contains(i as usize) <==> in_category(
            #[trigger] channels[i],
            category,
        )) by {
            if i < rest.len() {
                assert(rest[i] == channels[i]);
                if r.contains(i as usize) {
                    let k = choose|k: int| 0 <= k < r.len() && r[k] == i as usize;
                    assert(s[k] == i as usize);
                }
                if s.contains(i as usize) {
                    let k = choose|k: int| 0 <= k < s.len() && s[k] == i as usize;
                    if k < r.len() {
                        assert(r[k] == i as usize);
                        assert(r.contains(i as usize));
                    }
                }
            } else {
                if in_category(channels.last(), category) {
                    assert(s[s.len() - 1] == last);
                } else if s.contains(last) {
                    let k = choose|k: int| 0 <= k < s.len() && s[k] == last;
                    assert(r[k] < rest.len());
                }
            }
        }
    }
}

/// The places 0 to `n` - 1, ascending.
pub open spec fn identity(n: nat) -> Seq<usize> {
    Seq::new(n, |k: int| k as usize)
}

/// The channels of the category, listed in the order of their names.
pub open spec fn relisted(channels: Seq<Channel>, category: u64) -> Seq<Channel> {
    let order = sorted_siblings(channels, category);
    Seq::new(order.len(), |k: int| channels[order[k] as int])
}

/// Places that stand in the order of their keys already are ranked as they stand.
pub proof fn lemma_ranked_identity(n: nat, keys: Seq<Seq<u8>>)
    requires
        n <= usize::MAX,
        ordered(identity(n), keys),
    ensures
        ranked(identity(n), keys) == identity(n),
    decreases n,
{
    if n > 0 {
        let list = identity(n);
        let rest = identity((n - 1) as nat);
        assert(list.drop_last() =~= rest);
        assert(ordered(rest, keys)) by {
            assert forall|a: int, b: int| 0 <= a < b < rest.len() implies bytes_le(
                #[trigger] keys[rest[a] as int],
                #[trigger] keys[rest[b] as int],
            ) by {
                assert(rest[a] == list[a] && rest[b] == list[b]);
            }
        }
        lemma_ranked_identity((n - 1) as nat, keys);
        let x = list.last();
        if n > 1 {
            assert(rest.last() == list[n - 2]);
            assert(bytes_le(keys[list[n - 2] as int], keys[list[n - 1] as int]));
        }
        assert(slot(rest, keys, x) == rest.len());
        assert(rest.insert(rest.len() as int, x) =~= list);
    }
}

/// Where every channel stands under the category, every place is a sibling's.
pub proof fn lemma_siblings_all(channels: Seq<Channel>, category: u64)
    requires
        channels.len() <= usize::MAX,
        forall|i: int| 0 <= i < channels.len() ==> in_category(#[trigger] channels[i], category),
    ensures
        siblings(channels, category) == identity(channels.len()),
    decreases channels.len(),
{
    if channels.len() > 0 {
        let rest = channels.drop_last();
        assert forall|i: int| 0 <= i < rest.len() implies in_category(#[trigger] rest[i], category) by {
            assert(rest[i] == channels[i]);
        }
        lemma_siblings_all(rest, category);
        assert(siblings(channels, category) =~= identity(channels.len()));
    } else {
        assert(siblings(channels, category) =~= identity(channels.len()));
    }
}

/// What the order of the siblings is: the channels of the category, each
/// once, by ascending name, and among equal names as they were listed.
pub proof fn lemma_sorted_siblings(channels: Seq<Channel>, category: u64)
    requires
        channels.len() <= usize::MAX,
    ensures
        sorted_siblings(channels, category).len() == siblings(channels, category).len(),
        forall|i: int|
            0 <= i < channels.len() ==> (sorted_siblings(channels, category).contains(i as usize)
                <==> in_category(#[trigger] channels[i], category)),
        forall|k: int|
            0 <= k < sorted_siblings(channels, category).len() ==> #[trigger] sorted_siblings(
                channels,
                category,
            )[k] < channels.len(),
        ordered(sorted_siblings(channels, category), keys_of(channels)),
        stable(sorted_siblings(channels, category), keys_of(channels)),
{
    lemma_siblings(channels, category);
    lemma_ranked(siblings(channels, category), keys_of(channels));
    let list = siblings(channels, category);
    let order = sorted_siblings(channels, category);
    assert forall|k: int| 0 <= k < order.len() implies #[trigger] order[k] < channels.len() by {
        assert(order.contains(order[k]));
        assert(list.contains(order[k]));
        let i = choose|i: int| 0 <= i < list.len() && list[i] == order[k];
        assert(list[i] < channels.len());
    }
}

/// Ordering the channels a second time changes nothing: where the channels
/// of the category are listed in the order that a first ordering gave them,
/// each gets the place again that it has.
pub proof fn law_sort_twice(channels: Seq<Channel>, category: u64)
    requires
        channels.len() <= usize::MAX,
    ensures
        positions(relisted(channels, category), category) == positions(channels, category),
{
    lemma_sorted_siblings(channels, category);
    let order = sorted_siblings(channels, category);
    let again = relisted(channels, category);
    let keys = keys_of(channels);
    let keys2 = keys_of(again);
    lemma_siblings(channels, category);
    assert(order.len() <= channels.len()) by {
        lemma_ascending_len(siblings(channels, category), channels.len() as int);
    }
    assert forall|i: int| 0 <= i < again.len() implies in_category(#[trigger] again[i], category) by {
        assert(order.contains(order[i]));
    }
    lemma_siblings_all(again, category);
    assert(ordered(identity(again.len()), keys2)) by {
        let id = identity(again.len());
        assert forall|a: int, b: int| 0 <= a < b < id.len() implies bytes_le(
            #[trigger] keys2[id[a] as int],
            #[trigger] keys2[id[b] as int],
        ) by {
            assert(keys2[a] == keys[order[a] as int]);
            assert(keys2[b] == keys[order[b] as int]);
        }
    }
    lemma_ranked_identity(again.len(), keys2);
    assert(positions(again, category) =~= positions(channels, category));
}

/// Two texts of bytes that stand before or equal each other are equal.
pub proof fn lemma_bytes_le_antisym(a: Seq<u8>, b: Seq<u8>)
    requires
        bytes_le(a, b),
        bytes_le(b, a),
    ensures
        a == b,
    decreases a.len(),
{
    if a.len() > 0 && b.len() > 0 {
        lemma_bytes_le_antisym(a.drop_first(), b.drop_first());
        assert(a =~= seq![a[0]] + a.drop_first());
        assert(b =~= seq![b[0]] + b.drop_first());
    } else {
        assert(a =~= b);
    }
}

/// Whether no two channels of the category have the same name.
pub open spec fn distinct_names(channels: Seq<Channel>, category: u64) -> bool {
    forall|i: int, j: int|
        0 <= i < j < channels.len() && in_category(#[trigger] channels[i], category) && in_category(
            #[trigger] channels[j],
            category,
        ) ==> name_key(channels[i]) != name_key(channels[j])
}

/// The keys of the channels of the category, in the order of the names.
pub open spec fn sorted_keys(channels: Seq<Channel>, category: u64) -> Seq<Seq<u8>> {
    let order = sorted_siblings(channels, category);
    Seq::new(order.len(), |k: int| name_key(channels[order[k] as int]))
}

/// Whether each of the keys stands before those behind it and differs from them.
pub open spec fn strictly_ascending(keys: Seq<Seq<u8>>) -> bool {
    forall|a: int, b: int|
        0 <= a < b < keys.len() ==> bytes_le(#[trigger] keys[a], #[trigger] keys[b]) && keys[a]
            != keys[b]
}

/// Two strictly ascending lists of the same keys are the same list.
pub proof fn lemma_strict_same(x: Seq<Seq<u8>>, y: Seq<Seq<u8>>)
    requires
        strictly_ascending(x),
        strictly_ascending(y),
        forall|v: Seq<u8>| x.contains(v) <==> y.contains(v),
    ensures
        x == y,
    decreases x.len(),
{
    if x.len() == 0 {
        if y.len() > 0 {
            assert(y.contains(y[0]));
        }
        assert(x =~= y);
    } else {
        assert(x.contains(x[0]));
        let xl = x.last();
        let yl = y.last();
        assert(x.contains(xl));
        assert(y.contains(yl));
        let j = choose|j: int| 0 <= j < y.len() && y[j] == xl;
        let i = choose|i: int| 0 <= i < x.len() && x[i] == yl;
        lemma_bytes_le_refl(xl);
        lemma_bytes_le_refl(yl);
        assert(bytes_le(xl, yl)) by {
            if j < y.len() - 1 {
                assert(bytes_le(y[j], y[y.len() - 1]));
            }
        }
        assert(bytes_le(yl, xl)) by {
            if i < x.len() - 1 {
                assert(bytes_le(x[i], x[x.len() - 1]));
            }
        }
        lemma_bytes_le_antisym(xl, yl);
        let xs = x.drop_last();
        let ys = y.drop_last();
        assert(strictly_ascending(xs)) by {
            assert forall|a: int, b: int| 0 <= a < b < xs.len() implies bytes_le(
                #[trigger] xs[a],
                #[trigger] xs[b],
            ) && xs[a] != xs[b] by {
                assert(xs[a] == x[a] && xs[b] == x[b]);
            }
        }
        assert(strictly_ascending(ys)) by {
            assert forall|a: int, b: int| 0 <= a < b < ys.len() implies bytes_le(
                #[trigger] ys[a],
                #[trigger] ys[b],
            ) && ys[a] != ys[b] by {
                assert(ys[a] == y[a] && ys[b] == y[b]);
            }
        }
        assert forall|v: Seq<u8>| xs.contains(v) <==> ys.contains(v) by {
            if xs.contains(v) {
                let a = choose|a: int| 0 <= a < xs.len() && xs[a] == v;
                assert(x[a] == v);
                assert(x[a] != x[x.len() - 1]);
                assert(x.contains(v));
                let b = choose|b: int| 0 <= b < y.len() && y[b] == v;
                assert(b < y.len() - 1);
                assert(ys[b] == v);
            }
            if ys.contains(v) {
                let b = choose|b: int| 0 <= b < ys.len() && ys[b] == v;
                assert(y[b] == v);
                assert(y[b] != y[y.len() - 1]);
                assert(y.contains(v));
                let a = choose|a: int| 0 <= a < x.len() && x[a] == v;
                assert(a < x.len() - 1);
                assert(xs[a] == v);
            }
        }
        lemma_strict_same(xs, ys);
        assert(x =~= xs.push(xl));
        assert(y =~= ys.push(yl));
    }
}

/// Where no two channels of the category have the same name, the names in
/// their order ascend strictly, and are the names of the channels of the
/// category.
pub proof fn lemma_sorted_keys(channels: Seq<Channel>, category: u64)
    requires
        channels.len() <= usize::MAX,
        distinct_names(channels, category),
    ensures
        strictly_ascending(sorted_keys(channels, category)),
        forall|v: Seq<u8>|
            sorted_keys(channels, category).contains(v) <==> exists|c: Channel|
                #[trigger] channels.contains(c) && in_category(c, category) && name_key(c) == v,
{
    lemma_sorted_siblings(channels, category);
    let order = sorted_siblings(channels, category);
    let keys = keys_of(channels);
    let sk = sorted_keys(channels, category);
    assert forall|a: int, b: int| 0 <= a < b < sk.len() implies bytes_le(
        #[trigger] sk[a],
        #[trigger] sk[b],
    ) && sk[a] != sk[b] by {
        assert(sk[a] == keys[order[a] as int]);
        assert(sk[b] == keys[order[b] as int]);
        assert(order.contains(order[a]));
        assert(order.contains(order[b]));
        if sk[a] == sk[b] {
            assert(order[a] < order[b]);
            assert(in_category(channels[order[a] as int], category));
            assert(in_category(channels[order[b] as int], category));
        }
    }
    assert forall|v: Seq<u8>| sk.contains(v) <==> exists|c: Channel| #[trigger]
        channels.contains(c) && in_category(c, category) && name_key(c) == v by {
        if sk.contains(v) {
            let k = choose|k: int| 0 <= k < sk.len() && sk[k] == v;
            let c = channels[order[k] as int];
            assert(order.contains(order[k]));
            assert(channels.contains(c));
        }
        if exists|c: Channel| #[trigger]
            channels.contains(c) && in_category(c, category) && name_key(c) == v {
            let c = choose|c: Channel| #[trigger]
                channels.contains(c) && in_category(c, category) && name_key(c) == v;
            let i = choose|i: int| 0 <= i < channels.len() && channels[i] == c;
            assert(in_category(channels[i], category));
            assert(order.contains(i as usize));
            let k = choose|k: int| 0 <= k < order.len() && order[k] == i as usize;
            assert(sk[k] == v);
        }
    }
}

/// The places depend on the channels alone, not on how they are listed:
/// two listings of the same channels, in which no two channels of the
/// category have the same name, give each channel the same place.
pub proof fn law_sort_ignores_listing(first: Seq<Channel>, second: Seq<Channel>, category: u64)
    requires
        first.len() <= usize::MAX,
        second.len() <= usize::MAX,
        forall|c: Channel| first.contains(c) <==> second.contains(c),
        distinct_names(first, category),
        distinct_names(second, category),
    ensures
        positions(first, category) == positions(second, category),
{
    lemma_sorted_keys(first, category);
    lemma_sorted_keys(second, category);
    lemma_sorted_siblings(first, category);
    lemma_sorted_siblings(second, category);
    let k1 = sorted_keys(first, category);
    let k2 = sorted_keys(second, category);
    let o1 = sorted_siblings(first, category);
    let o2 = sorted_siblings(second, category);
    assert forall|v: Seq<u8>| k1.contains(v) <==> k2.contains(v) by {
        if k1.contains(v) {
            let c = choose|c: Channel| #[trigger]
                first.contains(c) && in_category(c, category) && name_key(c) == v;
            assert(second.contains(c));
        }
        if k2.contains(v) {
            let c = choose|c: Channel| #[trigger]
                second.contains(c) && in_category(c, category) && name_key(c) == v;
            assert(first.contains(c));
        }
    }
    lemma_strict_same(k1, k2);
    assert(o1.len() == o2.len());
    let p1 = positions(first, category);
    let p2 = positions(second, category);
    assert forall|k: int| 0 <= k < p1.len() implies p1[k] == p2[k] by {
        let c = first[o1[k] as int];
        assert(o1.contains(o1[k]));
        assert(first.contains(c));
        assert(second.contains(c));
        let j = choose|j: int| 0 <= j < second.len() && second[j] == c;
        assert(in_category(second[j], category));
        assert(o2.contains(j as usize));
        let m = choose|m: int| 0 <= m < o2.len() && o2[m] == j as usize;
        assert(k2[m] == name_key(c));
        assert(k1[k] == name_key(c));
        if m < k {
            assert(k2[m] != k2[k]);
        } else if k < m {
            assert(k2[k] != k2[m]);
        }
        assert(m == k);
    }
    assert(p1 =~= p2);
}

/// Ascending places below a bound are at most as many as the bound.
pub proof fn lemma_ascending_len(list: Seq<usize>, bound: int)
    requires
        ascending(list, bound),
        bound >= 0,
    ensures
        list.len() <= bound,
    decreases list.len(),
{
    if list.len() > 0 {
        let rest = list.drop_last();
        let top = list.last() as int;
        assert(ascending(rest, top)) by {
            assert forall|a: int, b: int| 0 <= a < b < rest.len() implies #[trigger] rest[a]
                < #[trigger] rest[b] by {
                assert(rest[a] == list[a] && rest[b] == list[b]);
            }
            assert forall|a: int| 0 <= a < rest.len() implies #[trigger] rest[a] < top by {
                assert(rest[a] == list[a]);
            }
        }
        lemma_ascending_len(rest, top);
    }
}

/// Whether the bytes `a` stand before the bytes `b` or equal them.
pub fn name_le(a: &[u8], b: &[u8]) -> (r: bool)
    ensures
        r == bytes_le(a@, b@),
{
    let mut i: usize = 0;
    proof {
        assert(a@.skip(0) =~= a@);
        assert(b@.skip(0) =~= b@);
    }
    loop
        invariant
            i <= a.len(),
            i <= b.len(),
            bytes_le(a@, b@) == bytes_le(a@.skip(i as int), b@.skip(i as int)),
        decreases a.len() - i,
    {
        if i == a.len() {
            return true;
        }
        if i == b.len() {
            return false;
        }
        if a[i] != b[i] {
            return a[i] < b[i];
        }
        proof {
            assert(a@.skip(i as int).drop_first() =~= a@.skip(i + 1));
            assert(b@.skip(i as int).drop_first() =~= b@.skip(i + 1));
        }
        i += 1;
    }
}

/// Orders the channels of the category `category` by name and gives each its
/// place, counted from 0: the pairs of a channel's identity and its place,
/// by ascending place. Channels of equal name stay in the order in which
/// `channels` lists them.
pub fn sort(channels: &Vec<Channel>, category: u64) -> (r: Vec<(u64, u64)>)
    ensures
        r@ == positions(channels@, category),
        r.len() == siblings(channels@, category).len(),
        forall|i: int|
            0 <= i < channels.len() ==> (sorted_siblings(channels@, category).contains(i as usize)
                <==> in_category(#[trigger] channels[i], category)),
        ordered(sorted_siblings(channels@, category), keys_of(channels@)),
        stable(sorted_siblings(channels@, category), keys_of(channels@)),
{
    let n = channels.len();
    let ghost keys = keys_of(channels@);
    let mut order: Vec<usize> = Vec::new();
    let mut i: usize = 0;
    proof {
        assert(channels@.take(0) =~= Seq::<Channel>::empty());
    }
    while i < n
        invariant
            i <= n == channels.len(),
            keys == keys_of(channels@),
            order@ == ranked(siblings(channels@.take(i as int), category), keys),
            forall|k: int| 0 <= k < order.len() ==> #[trigger] order[k] < i,
        decreases n - i,
    {
        proof {
            assert(channels@.take(i + 1).drop_last() =~= channels@.take(i as int));
            assert(channels@.take(i + 1).last() == channels@[i as int]);
        }
        let here = match channels[i].parent_id {
            Some(parent) => parent == category,
            None => false,
        };
        if here {
            let mut j: usize = order.len();
            while j > 0 && !name_le(
                channels[order[j - 1]].name.as_str().as_bytes(),
                channels[i].name.as_str().as_bytes(),
            )
                invariant
                    j <= order.len(),
                    i < n == channels.len(),
                    keys == keys_of(channels@),
                    forall|k: int| 0 <= k < order.len() ==> #[trigger] order[k] < i,
                    forall|k: int|
                        j <= k < order.len() ==> !bytes_le(
                            keys[#[trigger] order[k] as int],
                            keys[i as int],
                        ),
                decreases j,
            {
                j -= 1;
            }
            proof {
                lemma_slot_at(order@, keys, i, j as int);
                let list = siblings(channels@.take(i + 1), category);
                assert(in_category(channels@[i as int], category));
                assert(list == siblings(channels@.take(i as int), category).push(i));
                assert(list.drop_last() =~= siblings(channels@.take(i as int), category));
                assert(list.last() == i);
            }
            order.insert(j, i);
        } else {
            proof {
                assert(!in_category(channels@[i as int], category));
            }
        }
        i += 1;
    }
    proof {
        assert(channels@.take(n as int) =~= channels@);
        lemma_sorted_siblings(channels@, category);
    }
    let mut r: Vec<(u64, u64)> = Vec::new();
    let mut k: usize = 0;
    while k < order.len()
        invariant
            k <= order.len(),
            order@ == sorted_siblings(channels@, category),
            forall|q: int| 0 <= q < order.len() ==> #[trigger] order[q] < channels.len(),
            r@ == Seq::new(k as nat, |q: int| (channels@[order@[q] as int].id, q as u64)),
        decreases order.len() - k,
    {
        r.push((channels[order[k]].id, k as u64));
        proof {
            assert(r@ =~= Seq::new((k + 1) as nat, |q: int| (channels@[order@[q] as int].id, q as u64)));
        }
        k += 1;
    }
    proof {
        assert(r@ =~= positions(channels@, category));
    }
    r
}

} // verus!
