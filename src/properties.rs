//! Properties of the registry proved over its model: offset order, one row per
//! zone, and the merge/split round trip.

use vstd::prelude::*;

use crate::catalog::{
    folded_query, label_of, rank_order, scored, search_result, CitiesData, CityData, MAX_RESULTS,
};
use crate::clock::wall_clock;
use crate::order::{
    first_index, insert_ordered, sort_ordered, lemma_first_index_found, lemma_first_index_range,
    lemma_first_index_sat, lemma_insert_shape, lemma_sort_from, lemma_sort_len,
};
use crate::registry::{
    absorb, added, answers_to, can_add, has_id, holder, holds_zone, merge_one, merge_rows,
    member_of, split_row, add_row,
    new_row, place_city, same_clock, sort_zones, split_groups, split_rows, with_member, zone_key,
    zone_order,
};
use crate::zones::{MemberView, ZoneView};

verus! {

broadcast use vstd::multiset::group_multiset_axioms, vstd::seq_lib::lemma_multiset_commutative;

/// Rows in non-decreasing order of their offset at `now`.
pub open spec fn sorted_at(s: Seq<ZoneView>, now: int) -> bool {
    forall|i: int, j: int|
        0 <= i < j < s.len() ==> zone_key(#[trigger] s[i], now) <= zone_key(#[trigger] s[j], now)
}

/// Rows sorted at `now` run from the smallest offset at `now` to the largest:
/// a zone that is never behind another is never shown below it.
pub proof fn lemma_rows_sorted(s: Seq<ZoneView>, now: int)
    ensures
        sorted_at(sort_zones(s, now), now),
    decreases s.len(),
{
    if s.len() > 0 {
        let d = s.drop_last();
        lemma_rows_sorted(d, now);
        let sd = sort_zones(d, now);
        let x = s.last();
        let p = lemma_insert_shape(sd, x, zone_order(now));
        let r = sort_zones(s, now);
        assert(r == insert_ordered(sd, x, zone_order(now)));
        assert forall|i: int, j: int| 0 <= i < j < r.len() implies zone_key(#[trigger] r[i], now)
            <= zone_key(#[trigger] r[j], now) by {
            if i < p {
                assert(r[i] == sd[i]);
            } else if i == p {
                assert(r[i] == x);
            } else {
                assert(r[i] == sd[i - 1]);
            }
            if j < p {
                assert(r[j] == sd[j]);
            } else if j == p {
                assert(r[j] == x);
                assert(zone_key(sd[p - 1], now) <= zone_key(x, now));
                if i < p - 1 {
                    assert(zone_key(sd[i], now) <= zone_key(sd[p - 1], now));
                }
            } else {
                assert(r[j] == sd[j - 1]);
                if i == p {
                    assert(zone_order(now)(x, sd[j - 1]));
                }
            }
        }
    }
}


/// No zone is held by two rows.
pub open spec fn unique_holders(s: Seq<ZoneView>) -> bool {
    forall|i: int, j: int, t: Seq<char>|
        0 <= i < s.len() && 0 <= j < s.len() && #[trigger] holds_zone(s[i], t) && #[trigger] holds_zone(
            s[j],
            t,
        ) ==> i == j
}

/// City `m` is on row `z`.
pub open spec fn member_at(z: ZoneView, m: MemberView) -> bool {
    exists|k: int| 0 <= k < z.members.len() && z.members[k] == m
}

/// The catalog city that `name` finds.
pub open spec fn found_city(catalog: CitiesData, name: Seq<char>) -> CityData {
    catalog.cities@[first_index(catalog.cities@, answers_to(name))]
}

/// Every input row appears in the sorted rows.
pub proof fn lemma_sort_has(s: Seq<ZoneView>, now: int, a: int)
    requires
        0 <= a < s.len(),
    ensures
        exists|k: int|
            0 <= k < sort_zones(s, now).len() && sort_zones(s, now)[k] == s[a],
    decreases s.len(),
{
    let d = s.drop_last();
    let sd = sort_zones(d, now);
    lemma_sort_len(d, zone_order(now));
    let p = lemma_insert_shape(sd, s.last(), zone_order(now));
    let r = sort_zones(s, now);
    if a == s.len() - 1 {
        assert(r[p] == s[a]);
    } else {
        assert(d[a] == s[a]);
        lemma_sort_has(d, now, a);
        let k = choose|k: int| 0 <= k < sd.len() && sd[k] == d[a];
        if k < p {
            assert(r[k] == sd[k]);
        } else {
            assert(r[k + 1] == sd[k]);
        }
    }
}

/// Sorting keeps each zone on at most one row.
pub proof fn lemma_sort_unique(s: Seq<ZoneView>, now: int)
    requires
        unique_holders(s),
    ensures
        unique_holders(sort_zones(s, now)),
    decreases s.len(),
{
    if s.len() > 0 {
        let d = s.drop_last();
        assert forall|i: int, j: int, t: Seq<char>|
            0 <= i < d.len() && 0 <= j < d.len() && #[trigger] holds_zone(d[i], t)
                && #[trigger] holds_zone(d[j], t) implies i == j by {
            assert(d[i] == s[i] && d[j] == s[j]);
        }
        lemma_sort_unique(d, now);
        let sd = sort_zones(d, now);
        lemma_sort_len(d, zone_order(now));
        let x = s.last();
        let p = lemma_insert_shape(sd, x, zone_order(now));
        let r = sort_zones(s, now);
        assert forall|i: int, t: Seq<char>| 0 <= i < sd.len() && #[trigger] holds_zone(sd[i], t)
            implies !holds_zone(x, t) by {
            lemma_sort_from_zones(d, now, i);
            let a = choose|a: int| 0 <= a < d.len() && sd[i] == d[a];
            assert(d[a] == s[a]);
            if holds_zone(x, t) {
                assert(holds_zone(s[a], t) && holds_zone(s[s.len() - 1], t));
            }
        }
        assert forall|i: int, j: int, t: Seq<char>|
            0 <= i < r.len() && 0 <= j < r.len() && #[trigger] holds_zone(r[i], t)
                && #[trigger] holds_zone(r[j], t) implies i == j by {
            if i != j {
                if i < p {
                    assert(r[i] == sd[i]);
                } else if i > p {
                    assert(r[i] == sd[i - 1]);
                } else {
                    assert(r[i] == x);
                }
                if j < p {
                    assert(r[j] == sd[j]);
                } else if j > p {
                    assert(r[j] == sd[j - 1]);
                } else {
                    assert(r[j] == x);
                }
            }
        }
    }
}

/// Every sorted row comes from the input rows.
proof fn lemma_sort_from_zones(s: Seq<ZoneView>, now: int, k: int)
    requires
        0 <= k < sort_zones(s, now).len(),
    ensures
        exists|i: int| 0 <= i < s.len() && sort_zones(s, now)[k] == s[i],
{
    lemma_sort_from(s, zone_order(now), k);
}

/// A row with one more city holds the zones it held and the city's.
proof fn lemma_with_member_holds(z: ZoneView, m: MemberView, t: Seq<char>)
    ensures
        holds_zone(with_member(z, m), t) == (holds_zone(z, t) || m.timezone == t),
        forall|x: MemberView| member_at(z, x) ==> member_at(with_member(z, m), x),
        member_at(with_member(z, m), m),
{
    let w = with_member(z, m);
    if holds_zone(z, t) && z.id != t {
        let k = choose|k: int| 0 <= k < z.members.len() && (#[trigger] z.members[k]).timezone == t;
        assert(w.members[k] == z.members[k]);
    }
    if m.timezone == t {
        assert(w.members[z.members.len() as int] == m);
    }
    if holds_zone(w, t) && w.id != t {
        let k = choose|k: int| 0 <= k < w.members.len() && (#[trigger] w.members[k]).timezone == t;
        if k < z.members.len() {
            assert(w.members[k] == z.members[k]);
        }
    }
    assert forall|x: MemberView| member_at(z, x) implies member_at(w, x) by {
        let k = choose|k: int| 0 <= k < z.members.len() && z.members[k] == x;
        assert(w.members[k] == z.members[k]);
    }
    assert(w.members[z.members.len() as int] == m);
}

/// Placing a city keeps each zone on at most one row, and leaves the city on
/// the one row that holds its zone, beside any city already there.
pub(crate) proof fn lemma_place_unique(
    s: Seq<ZoneView>,
    m: MemberView,
    label: Option<Seq<char>>,
    now: int,
    merge: bool,
) -> (i: int)
    requires
        unique_holders(s),
    ensures
        unique_holders(place_city(s, m, label, now, merge)),
        0 <= i < place_city(s, m, label, now, merge).len(),
        holds_zone(place_city(s, m, label, now, merge)[i], m.timezone),
        member_at(place_city(s, m, label, now, merge)[i], m),
        0 <= i < s.len() ==> forall|x: MemberView|
            member_at(s[i], x) ==> member_at(place_city(s, m, label, now, merge)[i], x),
        first_index(s, holder(m.timezone)) >= 0 ==> i == first_index(s, holder(m.timezone)),
{
    let t = m.timezone;
    let r = place_city(s, m, label, now, merge);
    let j = first_index(s, holder(t));
    lemma_first_index_range(s, holder(t));
    lemma_first_index_range(s, same_clock(t, now));
    let idx = if j >= 0 {
        j
    } else if merge && first_index(s, same_clock(t, now)) >= 0 {
        first_index(s, same_clock(t, now))
    } else {
        s.len() as int
    };
    if j >= 0 {
        lemma_first_index_sat(s, holder(t));
    } else {
        assert forall|a: int| 0 <= a < s.len() implies !holds_zone(s[a], t) by {
            if holds_zone(s[a], t) {
                lemma_first_index_found(s, holder(t), a);
            }
        }
    }
    if idx < s.len() {
        assert(r == s.update(idx, with_member(s[idx], m)));
        assert forall|u: Seq<char>| #[trigger] holds_zone(r[idx], u) == (holds_zone(s[idx], u) || t == u) by {
            lemma_with_member_holds(s[idx], m, u);
        }
        lemma_with_member_holds(s[idx], m, t);
        assert forall|a: int, b: int, u: Seq<char>|
            0 <= a < r.len() && 0 <= b < r.len() && #[trigger] holds_zone(r[a], u)
                && #[trigger] holds_zone(r[b], u) implies a == b by {
            if a != idx {
                assert(r[a] == s[a]);
            }
            if b != idx {
                assert(r[b] == s[b]);
            }
        }
    } else {
        let z = new_row(m, label);
        assert(r == s.push(z));
        assert(z.members[0] == m);
        assert forall|u: Seq<char>| #[trigger] holds_zone(z, u) implies u == t by {
            if z.id != u {
                let k = choose|k: int| 0 <= k < z.members.len() && (#[trigger] z.members[k]).timezone == u;
            }
        }
        assert forall|a: int, b: int, u: Seq<char>|
            0 <= a < r.len() && 0 <= b < r.len() && #[trigger] holds_zone(r[a], u)
                && #[trigger] holds_zone(r[b], u) implies a == b by {
            if a < s.len() {
                assert(r[a] == s[a]);
            } else {
                assert(r[a] == z);
            }
            if b < s.len() {
                assert(r[b] == s[b]);
            } else {
                assert(r[b] == z);
            }
        }
        assert(holds_zone(r[idx], t));
        assert(member_at(r[idx], m));
    }
    idx
}

/// A zone held by a row with another row's cities added is held by one of the two.
proof fn lemma_absorb_holds(z: ZoneView, e: ZoneView, t: Seq<char>)
    ensures
        holds_zone(absorb(z, e), t) ==> holds_zone(z, t) || holds_zone(e, t),
{
    let w = absorb(z, e);
    if holds_zone(w, t) && w.id != t {
        let k = choose|k: int| 0 <= k < w.members.len() && (#[trigger] w.members[k]).timezone == t;
        if k < z.members.len() {
            assert(w.members[k] == z.members[k]);
        } else {
            assert(w.members[k] == e.members[k - z.members.len()]);
        }
    }
}

/// Every zone of `r` is a zone of some row of `s`.
pub open spec fn zones_within(r: Seq<ZoneView>, s: Seq<ZoneView>) -> bool {
    forall|i: int, t: Seq<char>|
        0 <= i < r.len() && #[trigger] holds_zone(r[i], t) ==> exists|a: int|
            0 <= a < s.len() && #[trigger] holds_zone(s[a], t)
}

/// Merging keeps each zone on at most one row, and adds no zone.
pub proof fn lemma_merge_unique(s: Seq<ZoneView>, now: int)
    requires
        unique_holders(s),
    ensures
        unique_holders(merge_rows(s, now)),
        zones_within(merge_rows(s, now), s),
    decreases s.len(),
{
    if s.len() > 0 {
        let d = s.drop_last();
        let e = s.last();
        assert forall|i: int, j: int, t: Seq<char>|
            0 <= i < d.len() && 0 <= j < d.len() && #[trigger] holds_zone(d[i], t)
                && #[trigger] holds_zone(d[j], t) implies i == j by {
            assert(d[i] == s[i] && d[j] == s[j]);
        }
        lemma_merge_unique(d, now);
        let m = merge_rows(d, now);
        assert forall|i: int, t: Seq<char>| 0 <= i < m.len() && #[trigger] holds_zone(m[i], t)
            implies !holds_zone(e, t) by {
            let a = choose|a: int| 0 <= a < d.len() && #[trigger] holds_zone(d[a], t);
            assert(d[a] == s[a]);
            if holds_zone(e, t) {
                assert(holds_zone(s[s.len() - 1], t));
            }
        }
        let jx = first_index(m, has_id(e.id));
        let kx = first_index(m, same_clock(e.id, now));
        lemma_first_index_range(m, has_id(e.id));
        lemma_first_index_range(m, same_clock(e.id, now));
        let r = merge_one(m, e, now);
        if jx >= 0 || kx >= 0 {
            let idx = if jx >= 0 {
                jx
            } else {
                kx
            };
            assert(r == m.update(idx, absorb(m[idx], e)));
            assert forall|i: int, t: Seq<char>| 0 <= i < r.len() && #[trigger] holds_zone(r[i], t)
                implies (holds_zone(m[i], t) || (i == idx && holds_zone(e, t))) by {
                if i == idx {
                    lemma_absorb_holds(m[idx], e, t);
                }
            }
            assert forall|i: int, j: int, t: Seq<char>|
                0 <= i < r.len() && 0 <= j < r.len() && #[trigger] holds_zone(r[i], t)
                    && #[trigger] holds_zone(r[j], t) implies i == j by {
                if i != j {
                    if holds_zone(m[i], t) && holds_zone(m[j], t) {
                    } else if i == idx && holds_zone(e, t) {
                        assert(holds_zone(m[j], t));
                    } else {
                        assert(holds_zone(m[i], t));
                    }
                }
            }
            assert forall|i: int, t: Seq<char>| 0 <= i < r.len() && #[trigger] holds_zone(r[i], t)
                implies exists|a: int| 0 <= a < s.len() && #[trigger] holds_zone(s[a], t) by {
                if holds_zone(m[i], t) {
                    let a = choose|a: int| 0 <= a < d.len() && #[trigger] holds_zone(d[a], t);
                    assert(d[a] == s[a]);
                } else {
                    assert(holds_zone(s[s.len() - 1], t));
                }
            }
        } else {
            assert(r == m.push(e));
            assert forall|i: int, j: int, t: Seq<char>|
                0 <= i < r.len() && 0 <= j < r.len() && #[trigger] holds_zone(r[i], t)
                    && #[trigger] holds_zone(r[j], t) implies i == j by {
                if i < m.len() {
                    assert(r[i] == m[i]);
                }
                if j < m.len() {
                    assert(r[j] == m[j]);
                }
            }
            assert forall|i: int, t: Seq<char>| 0 <= i < r.len() && #[trigger] holds_zone(r[i], t)
                implies exists|a: int| 0 <= a < s.len() && #[trigger] holds_zone(s[a], t) by {
                if i < m.len() {
                    assert(r[i] == m[i]);
                    let a = choose|a: int| 0 <= a < d.len() && #[trigger] holds_zone(d[a], t);
                    assert(d[a] == s[a]);
                } else {
                    assert(holds_zone(s[s.len() - 1], t));
                }
            }
        }
    }
}

/// The groups a row splits into each hold one zone, their own, which is
/// the zone of one of the cities split; no two groups share it.
proof fn lemma_groups_shape(ms: Seq<MemberView>, z: ZoneView)
    ensures
        forall|k: int, t: Seq<char>|
            0 <= k < split_groups(ms, z).len() && #[trigger] holds_zone(split_groups(ms, z)[k], t)
                ==> t == split_groups(ms, z)[k].id,
        forall|k: int|
            0 <= k < split_groups(ms, z).len() ==> exists|i: int|
                0 <= i < ms.len() && ms[i].timezone == (#[trigger] split_groups(ms, z)[k]).id,
        forall|k: int, l: int|
            0 <= k < split_groups(ms, z).len() && 0 <= l < split_groups(ms, z).len() && k != l
                ==> (#[trigger] split_groups(ms, z)[k]).id != (#[trigger] split_groups(ms, z)[l]).id,
        forall|k: int, x: int|
            0 <= k < split_groups(ms, z).len() && 0 <= x < split_groups(ms, z)[k].members.len()
                ==> (#[trigger] split_groups(ms, z)[k].members[x]).timezone == split_groups(
                ms,
                z,
            )[k].id,
    decreases ms.len(),
{
    if ms.len() > 0 {
        let dm = ms.drop_last();
        lemma_groups_shape(dm, z);
        let g = split_groups(dm, z);
        let m = ms.last();
        let j = first_index(g, has_id(m.timezone));
        lemma_first_index_range(g, has_id(m.timezone));
        let r = split_groups(ms, z);
        if j >= 0 {
            lemma_first_index_sat(g, has_id(m.timezone));
            assert(r == g.update(j, with_member(g[j], m)));
            assert forall|k: int, x: int|
                0 <= k < r.len() && 0 <= x < r[k].members.len() implies (
                #[trigger] r[k].members[x]).timezone == r[k].id by {
                if k == j && x == g[j].members.len() {
                    assert(r[k].members[x] == m);
                } else if k == j {
                    assert(r[k].members[x] == g[j].members[x]);
                }
            }
            assert forall|k: int| 0 <= k < r.len() implies exists|i: int|
                0 <= i < ms.len() && ms[i].timezone == (#[trigger] r[k]).id by {
                let i = choose|i: int| 0 <= i < dm.len() && dm[i].timezone == g[k].id;
                assert(ms[i] == dm[i]);
            }
        } else {
            let nr = new_row(
                m,
                if m.timezone == z.id {
                    z.label
                } else {
                    None
                },
            );
            assert(r == g.push(nr));
            assert forall|k: int| 0 <= k < g.len() implies (#[trigger] g[k]).id != m.timezone by {
                if g[k].id == m.timezone {
                    lemma_first_index_found(g, has_id(m.timezone), k);
                }
            }
            assert forall|k: int, x: int|
                0 <= k < r.len() && 0 <= x < r[k].members.len() implies (
                #[trigger] r[k].members[x]).timezone == r[k].id by {
                if k == g.len() {
                    assert(r[k].members[x] == m);
                } else {
                    assert(r[k] == g[k]);
                }
            }
            assert forall|k: int| 0 <= k < r.len() implies exists|i: int|
                0 <= i < ms.len() && ms[i].timezone == (#[trigger] r[k]).id by {
                if k < g.len() {
                    assert(r[k] == g[k]);
                    let i = choose|i: int| 0 <= i < dm.len() && dm[i].timezone == g[k].id;
                    assert(ms[i] == dm[i]);
                } else {
                    assert(ms[ms.len() - 1].timezone == r[k].id);
                }
            }
            assert forall|k: int, l: int|
                0 <= k < r.len() && 0 <= l < r.len() && k != l implies (#[trigger] r[k]).id
                != (#[trigger] r[l]).id by {
                if k < g.len() {
                    assert(r[k] == g[k]);
                }
                if l < g.len() {
                    assert(r[l] == g[l]);
                }
            }
        }
        let r2 = split_groups(ms, z);
        assert forall|k: int, t: Seq<char>|
            0 <= k < r2.len() && #[trigger] holds_zone(r2[k], t) implies t == r2[k].id by {
            if r2[k].id != t {
                let x = choose|x: int|
                    0 <= x < r2[k].members.len() && (#[trigger] r2[k].members[x]).timezone == t;
            }
        }
    }
}

/// Splitting keeps each zone on at most one row, and adds no zone.
pub proof fn lemma_split_unique(s: Seq<ZoneView>)
    requires
        unique_holders(s),
    ensures
        unique_holders(split_rows(s)),
        zones_within(split_rows(s), s),
    decreases s.len(),
{
    if s.len() > 0 {
        let d = s.drop_last();
        let z = s.last();
        assert forall|i: int, j: int, t: Seq<char>|
            0 <= i < d.len() && 0 <= j < d.len() && #[trigger] holds_zone(d[i], t)
                && #[trigger] holds_zone(d[j], t) implies i == j by {
            assert(d[i] == s[i] && d[j] == s[j]);
        }
        lemma_split_unique(d);
        let a = split_rows(d);
        let b = split_row(z);
        // the rows z splits into hold only zones of z, one zone each
        if z.members.len() > 1 {
            lemma_groups_shape(z.members, z);
        }
        assert forall|k: int, t: Seq<char>| 0 <= k < b.len() && #[trigger] holds_zone(b[k], t)
            implies holds_zone(z, t) by {
            if z.members.len() > 1 {
                let i = choose|i: int| 0 <= i < z.members.len() && z.members[i].timezone == b[k].id;
                assert(z.members[i].timezone == t);
            }
        }
        assert forall|k: int, l: int, t: Seq<char>|
            0 <= k < b.len() && 0 <= l < b.len() && #[trigger] holds_zone(b[k], t)
                && #[trigger] holds_zone(b[l], t) implies k == l by {
            if z.members.len() <= 1 {
                assert(b.len() == 1);
            }
        }
        assert forall|i: int, t: Seq<char>| 0 <= i < a.len() && #[trigger] holds_zone(a[i], t)
            implies !holds_zone(z, t) by {
            let x = choose|x: int| 0 <= x < d.len() && #[trigger] holds_zone(d[x], t);
            assert(d[x] == s[x]);
            if holds_zone(z, t) {
                assert(holds_zone(s[s.len() - 1], t));
            }
        }
        let r = split_rows(s);
        assert(r == a + b);
        assert forall|i: int, j: int, t: Seq<char>|
            0 <= i < r.len() && 0 <= j < r.len() && #[trigger] holds_zone(r[i], t)
                && #[trigger] holds_zone(r[j], t) implies i == j by {
            if i < a.len() {
                assert(r[i] == a[i]);
            } else {
                assert(r[i] == b[i - a.len()]);
            }
            if j < a.len() {
                assert(r[j] == a[j]);
            } else {
                assert(r[j] == b[j - a.len()]);
            }
        }
        assert forall|i: int, t: Seq<char>| 0 <= i < r.len() && #[trigger] holds_zone(r[i], t)
            implies exists|x: int| 0 <= x < s.len() && #[trigger] holds_zone(s[x], t) by {
            if i < a.len() {
                assert(r[i] == a[i]);
                let x = choose|x: int| 0 <= x < d.len() && #[trigger] holds_zone(d[x], t);
                assert(d[x] == s[x]);
            } else {
                assert(r[i] == b[i - a.len()]);
                assert(holds_zone(s[s.len() - 1], t));
            }
        }
    }
}

/// Row `z` overlaps no row of `s` but the first row for its own zone, the one
/// it would join.
pub open spec fn fits_row(s: Seq<ZoneView>, z: ZoneView) -> bool {
    forall|i: int, t: Seq<char>|
        0 <= i < s.len() && #[trigger] holds_zone(s[i], t) && holds_zone(z, t) ==> i == first_index(
            s,
            holder(z.id),
        )
}

/// Adding a row that fits keeps each zone on at most one row.
pub proof fn lemma_add_row_unique(s: Seq<ZoneView>, z: ZoneView)
    requires
        unique_holders(s),
        fits_row(s, z),
    ensures
        unique_holders(add_row(s, z)),
{
    let j = first_index(s, holder(z.id));
    lemma_first_index_range(s, holder(z.id));
    let r = add_row(s, z);
    if j >= 0 {
        assert(r == s.update(j, absorb(s[j], z)));
        assert forall|i: int, k: int, t: Seq<char>|
            0 <= i < r.len() && 0 <= k < r.len() && #[trigger] holds_zone(r[i], t)
                && #[trigger] holds_zone(r[k], t) implies i == k by {
            if i == j {
                lemma_absorb_holds(s[j], z, t);
            } else {
                assert(r[i] == s[i]);
            }
            if k == j {
                lemma_absorb_holds(s[j], z, t);
            } else {
                assert(r[k] == s[k]);
            }
        }
    } else {
        assert(r == s.push(z));
        assert forall|i: int, k: int, t: Seq<char>|
            0 <= i < r.len() && 0 <= k < r.len() && #[trigger] holds_zone(r[i], t)
                && #[trigger] holds_zone(r[k], t) implies i == k by {
            if i < s.len() {
                assert(r[i] == s[i]);
            }
            if k < s.len() {
                assert(r[k] == s[k]);
            }
        }
    }
}

/// Removing a row, or changing its label, keeps each zone on at most one row.
pub proof fn lemma_remove_relabel_unique(s: Seq<ZoneView>, i: int, label: Option<Seq<char>>)
    requires
        unique_holders(s),
        0 <= i < s.len(),
    ensures
        unique_holders(s.remove(i)),
        unique_holders(s.update(i, ZoneView { label, ..s[i] })),
{
    let r = s.remove(i);
    assert forall|a: int, b: int, t: Seq<char>|
        0 <= a < r.len() && 0 <= b < r.len() && #[trigger] holds_zone(r[a], t)
            && #[trigger] holds_zone(r[b], t) implies a == b by {
        let a2 = if a < i {
            a
        } else {
            a + 1
        };
        let b2 = if b < i {
            b
        } else {
            b + 1
        };
        assert(r[a] == s[a2] && r[b] == s[b2]);
    }
    let u = s.update(i, ZoneView { label, ..s[i] });
    assert forall|a: int, b: int, t: Seq<char>|
        0 <= a < u.len() && 0 <= b < u.len() && #[trigger] holds_zone(u[a], t)
            && #[trigger] holds_zone(u[b], t) implies a == b by {
        assert(holds_zone(u[a], t) == holds_zone(s[a], t));
        assert(holds_zone(u[b], t) == holds_zone(s[b], t));
    }
}

/// No label appears twice in a ranking.
pub open spec fn labels_distinct(s: Seq<(Seq<char>, int)>) -> bool {
    forall|i: int, j: int| 0 <= i < s.len() && 0 <= j < s.len() && i != j ==> (#[trigger] s[i]).0
        != (#[trigger] s[j]).0
}

proof fn lemma_scored_labels(cities: Seq<CityData>, q: Seq<char>, majors: Seq<String>)
    requires
        forall|i: int, j: int|
            0 <= i < cities.len() && 0 <= j < cities.len() && i != j ==> label_of(#[trigger] cities[i])
                != label_of(#[trigger] cities[j]),
    ensures
        labels_distinct(scored(cities, q, majors)),
        forall|k: int|
            0 <= k < scored(cities, q, majors).len() ==> exists|a: int|
                0 <= a < cities.len() && (#[trigger] scored(cities, q, majors)[k]).0 == label_of(
                    cities[a],
                ),
    decreases cities.len(),
{
    if cities.len() > 0 {
        let d = cities.drop_last();
        assert forall|i: int, j: int|
            0 <= i < d.len() && 0 <= j < d.len() && i != j implies label_of(#[trigger] d[i])
            != label_of(#[trigger] d[j]) by {
            assert(d[i] == cities[i] && d[j] == cities[j]);
        }
        lemma_scored_labels(d, q, majors);
        let rest = scored(d, q, majors);
        let c = cities.last();
        let r = scored(cities, q, majors);
        assert forall|k: int| 0 <= k < rest.len() implies (#[trigger] rest[k]).0 != label_of(c) by {
            let a = choose|a: int| 0 <= a < d.len() && rest[k].0 == label_of(d[a]);
            assert(d[a] == cities[a]);
            assert(label_of(cities[a]) != label_of(cities[cities.len() - 1]));
        }
        assert forall|k: int| 0 <= k < r.len() implies exists|a: int|
            0 <= a < cities.len() && (#[trigger] r[k]).0 == label_of(cities[a]) by {
            if k < rest.len() {
                assert(r[k] == rest[k]);
                let a = choose|a: int| 0 <= a < d.len() && rest[k].0 == label_of(d[a]);
                assert(d[a] == cities[a]);
            } else {
                assert(r[k].0 == label_of(cities[cities.len() - 1]));
            }
        }
        assert forall|i: int, j: int| 0 <= i < r.len() && 0 <= j < r.len() && i != j implies (
        #[trigger] r[i]).0 != (#[trigger] r[j]).0 by {
            if i < rest.len() {
                assert(r[i] == rest[i]);
            }
            if j < rest.len() {
                assert(r[j] == rest[j]);
            }
        }
    }
}

proof fn lemma_ranked_labels(s: Seq<(Seq<char>, int)>)
    requires
        labels_distinct(s),
    ensures
        labels_distinct(sort_ordered(s, rank_order())),
    decreases s.len(),
{
    if s.len() > 0 {
        let d = s.drop_last();
        assert forall|i: int, j: int| 0 <= i < d.len() && 0 <= j < d.len() && i != j implies (
        #[trigger] d[i]).0 != (#[trigger] d[j]).0 by {
            assert(d[i] == s[i] && d[j] == s[j]);
        }
        lemma_ranked_labels(d);
        let sd = sort_ordered(d, rank_order());
        lemma_sort_len(d, rank_order());
        let x = s.last();
        let p = lemma_insert_shape(sd, x, rank_order());
        let r = sort_ordered(s, rank_order());
        assert forall|i: int| 0 <= i < sd.len() implies (#[trigger] sd[i]).0 != x.0 by {
            lemma_sort_from(d, rank_order(), i);
            let a = choose|a: int| 0 <= a < d.len() && sd[i] == d[a];
            assert(d[a] == s[a]);
            assert(s[s.len() - 1] == x);
        }
        assert forall|i: int, j: int| 0 <= i < r.len() && 0 <= j < r.len() && i != j implies (
        #[trigger] r[i]).0 != (#[trigger] r[j]).0 by {
            if i < p {
                assert(r[i] == sd[i]);
            } else if i > p {
                assert(r[i] == sd[i - 1]);
            } else {
                assert(r[i] == x);
            }
            if j < p {
                assert(r[j] == sd[j]);
            } else if j > p {
                assert(r[j] == sd[j - 1]);
            } else {
                assert(r[j] == x);
            }
        }
    }
}

/// When no two catalog cities share a label, a search lists no label twice.
pub proof fn lemma_search_labels_distinct(catalog: CitiesData, query: Seq<char>)
    requires
        forall|i: int, j: int|
            0 <= i < catalog.cities@.len() && 0 <= j < catalog.cities@.len() && i != j ==> label_of(
                #[trigger] catalog.cities@[i],
            ) != label_of(#[trigger] catalog.cities@[j]),
    ensures
        forall|i: int, j: int|
            0 <= i < search_result(catalog, query).len() && 0 <= j < search_result(
                catalog,
                query,
            ).len() && i != j ==> #[trigger] search_result(catalog, query)[i] != #[trigger] search_result(
                catalog,
                query,
            )[j],
{
    let q = folded_query(query);
    if q.len() > 0 {
        lemma_scored_labels(catalog.cities@, q, catalog.major_cities@);
        let ranked = sort_ordered(scored(catalog.cities@, q, catalog.major_cities@), rank_order());
        lemma_ranked_labels(scored(catalog.cities@, q, catalog.major_cities@));
        let top = if ranked.len() > MAX_RESULTS {
            ranked.take(MAX_RESULTS as int)
        } else {
            ranked
        };
        let r = search_result(catalog, query);
        assert(r == top.map_values(|p: (Seq<char>, int)| p.0));
        assert forall|i: int, j: int| 0 <= i < r.len() && 0 <= j < r.len() && i != j implies #[trigger] r[i]
            != #[trigger] r[j] by {
            assert(r[i] == top[i].0 && r[j] == top[j].0);
            assert(top[i] == ranked[i] && top[j] == ranked[j]);
        }
    }
}

/// Adding a city never puts one zone on two rows.
pub proof fn lemma_add_keeps_zones_apart(
    s: Seq<ZoneView>,
    catalog: CitiesData,
    name: Seq<char>,
    label: Option<Seq<char>>,
    now: int,
    merge: bool,
)
    requires
        unique_holders(s),
    ensures
        unique_holders(added(s, catalog, name, label, now, merge)),
{
    if can_add(catalog, name) {
        let m = member_of(found_city(catalog, name));
        let placed = place_city(s, m, label, now, merge);
        lemma_place_unique(s, m, label, now, merge);
        lemma_sort_unique(placed, now);
    }
}

/// Adding two cities of the same zone, with merging by time on or off, leaves
/// exactly one row for that zone, both cities are on it, and the second city
/// adds no row. Every registry meets the premise (`lemma_wf_unique`).
pub proof fn lemma_same_zone_one_row(
    s: Seq<ZoneView>,
    catalog: CitiesData,
    a: Seq<char>,
    b: Seq<char>,
    label_a: Option<Seq<char>>,
    label_b: Option<Seq<char>>,
    now: int,
    merge: bool,
)
    requires
        unique_holders(s),
        can_add(catalog, a),
        can_add(catalog, b),
        found_city(catalog, a).timezone@ == found_city(catalog, b).timezone@,
    ensures
        ({
            let r = added(added(s, catalog, a, label_a, now, merge), catalog, b, label_b, now, merge);
            let t = found_city(catalog, a).timezone@;
            exists|i: int|
                0 <= i < r.len() && member_at(r[i], member_of(found_city(catalog, a))) && member_at(
                    r[i],
                    member_of(found_city(catalog, b)),
                ) && holds_zone(r[i], t) && forall|j: int|
                    0 <= j < r.len() && #[trigger] holds_zone(r[j], t) ==> j == i
        }),
        added(added(s, catalog, a, label_a, now, merge), catalog, b, label_b, now, merge).len()
            == added(s, catalog, a, label_a, now, merge).len(),
{
    let ma = member_of(found_city(catalog, a));
    let mb = member_of(found_city(catalog, b));
    let t = ma.timezone;
    let placed_a = place_city(s, ma, label_a, now, merge);
    let at_a = lemma_place_unique(s, ma, label_a, now, merge);
    let after_a = sort_zones(placed_a, now);
    assert(after_a == added(s, catalog, a, label_a, now, merge));
    lemma_sort_unique(placed_a, now);
    lemma_sort_has(placed_a, now, at_a);
    let sorted_a = choose|k: int| 0 <= k < after_a.len() && after_a[k] == placed_a[at_a];
    lemma_first_index_found(after_a, holder(t), sorted_a);
    let j = first_index(after_a, holder(t));
    lemma_first_index_sat(after_a, holder(t));
    assert(j == sorted_a);
    let placed_b = place_city(after_a, mb, label_b, now, merge);
    let at_b = lemma_place_unique(after_a, mb, label_b, now, merge);
    assert(at_b == sorted_a);
    let r = sort_zones(placed_b, now);
    assert(r == added(after_a, catalog, b, label_b, now, merge));
    lemma_sort_unique(placed_b, now);
    lemma_sort_has(placed_b, now, at_b);
    let sorted_b = choose|k: int| 0 <= k < r.len() && r[k] == placed_b[at_b];
    lemma_sort_len(placed_b, zone_order(now));
    assert(placed_b.len() == after_a.len());
    assert(member_at(r[sorted_b], ma));
    assert(member_at(r[sorted_b], mb));
    assert forall|jj: int| 0 <= jj < r.len() && #[trigger] holds_zone(r[jj], t) implies jj == sorted_b by {
        assert(holds_zone(r[sorted_b], t));
    }
}



/// No two rows show the same wall clock at `now`.
pub open spec fn distinct_clocks(s: Seq<ZoneView>, now: int) -> bool {
    forall|i: int, j: int|
        0 <= i < s.len() && 0 <= j < s.len() && i != j ==> wall_clock(#[trigger] s[i].id, now)
            != wall_clock(#[trigger] s[j].id, now)
}

proof fn lemma_merge_distinct(s: Seq<ZoneView>, now: int)
    ensures
        distinct_clocks(merge_rows(s, now), now),
    decreases s.len(),
{
    if s.len() > 0 {
        let d = s.drop_last();
        lemma_merge_distinct(d, now);
        let out = merge_rows(d, now);
        let e = s.last();
        let j = first_index(out, has_id(e.id));
        let k = first_index(out, same_clock(e.id, now));
        lemma_first_index_range(out, has_id(e.id));
        lemma_first_index_range(out, same_clock(e.id, now));
        let r = merge_one(out, e, now);
        if j >= 0 || k >= 0 {
            let idx = if j >= 0 {
                j
            } else {
                k
            };
            assert(r == out.update(idx, absorb(out[idx], e)));
            assert forall|i: int| 0 <= i < r.len() implies (#[trigger] r[i]).id == out[i].id by {}
        } else {
            assert(r == out.push(e));
            assert forall|i: int| 0 <= i < out.len() implies wall_clock(out[i].id, now) != wall_clock(
                e.id,
                now,
            ) by {
                if wall_clock(out[i].id, now) == wall_clock(e.id, now) {
                    lemma_first_index_found(out, same_clock(e.id, now), i);
                }
            }
            assert forall|a: int, b: int|
                0 <= a < r.len() && 0 <= b < r.len() && a != b implies wall_clock(
                #[trigger] r[a].id,
                now,
            ) != wall_clock(#[trigger] r[b].id, now) by {
                if a < out.len() {
                    assert(r[a] == out[a]);
                }
                if b < out.len() {
                    assert(r[b] == out[b]);
                }
            }
        }
    }
}

proof fn lemma_sort_distinct(s: Seq<ZoneView>, now: int)
    requires
        distinct_clocks(s, now),
    ensures
        distinct_clocks(sort_zones(s, now), now),
    decreases s.len(),
{
    if s.len() > 0 {
        let d = s.drop_last();
        assert forall|i: int, j: int|
            0 <= i < d.len() && 0 <= j < d.len() && i != j implies wall_clock(
            #[trigger] d[i].id,
            now,
        ) != wall_clock(#[trigger] d[j].id, now) by {
            assert(d[i] == s[i] && d[j] == s[j]);
        }
        lemma_sort_distinct(d, now);
        let sd = sort_zones(d, now);
        lemma_sort_len(d, zone_order(now));
        let x = s.last();
        let p = lemma_insert_shape(sd, x, zone_order(now));
        let r = sort_zones(s, now);
        assert forall|i: int| 0 <= i < sd.len() implies wall_clock(sd[i].id, now) != wall_clock(
            x.id,
            now,
        ) by {
            lemma_sort_from(d, zone_order(now), i);
            let a = choose|a: int| 0 <= a < d.len() && sd[i] == d[a];
            assert(d[a] == s[a]);
            assert(s[s.len() - 1] == x);
        }
        assert forall|i: int, j: int|
            0 <= i < r.len() && 0 <= j < r.len() && i != j implies wall_clock(
            #[trigger] r[i].id,
            now,
        ) != wall_clock(#[trigger] r[j].id, now) by {
            if i < p {
                assert(r[i] == sd[i]);
            } else if i > p {
                assert(r[i] == sd[i - 1]);
            } else {
                assert(r[i] == x);
            }
            if j < p {
                assert(r[j] == sd[j]);
            } else if j > p {
                assert(r[j] == sd[j - 1]);
            } else {
                assert(r[j] == x);
            }
        }
    }
}

/// After merging by time no two rows show the same wall clock at `now`, so
/// no further merge is possible: the set of rows is minimal.
pub proof fn lemma_merged_rows_differ(s: Seq<ZoneView>, now: int)
    ensures
        distinct_clocks(sort_zones(merge_rows(s, now), now), now),
{
    lemma_merge_distinct(s, now);
    lemma_sort_distinct(merge_rows(s, now), now);
}

/// The zones of a row's cities, in order.
pub open spec fn zones_in(z: ZoneView) -> Seq<Seq<char>> {
    z.members.map_values(|m: MemberView| m.timezone)
}

/// The zones of every city on every row, row after row.
pub open spec fn flat_zones(s: Seq<ZoneView>) -> Seq<Seq<char>>
    decreases s.len(),
{
    if s.len() == 0 {
        seq![]
    } else {
        flat_zones(s.drop_last()) + zones_in(s.last())
    }
}

/// Every row has at least one city.
pub open spec fn peopled(s: Seq<ZoneView>) -> bool {
    forall|i: int| 0 <= i < s.len() ==> (#[trigger] s[i]).members.len() >= 1
}

proof fn lemma_flat_concat(a: Seq<ZoneView>, b: Seq<ZoneView>)
    ensures
        flat_zones(a + b) == flat_zones(a) + flat_zones(b),
    decreases b.len(),
{
    if b.len() == 0 {
        assert(a + b =~= a);
        assert(flat_zones(a) + flat_zones(b) =~= flat_zones(a));
    } else {
        assert((a + b).drop_last() =~= a + b.drop_last());
        lemma_flat_concat(a, b.drop_last());
        assert((a + b).last() == b.last());
        assert(flat_zones(a) + flat_zones(b.drop_last()) + zones_in(b.last()) =~= flat_zones(a) + (
        flat_zones(b.drop_last()) + zones_in(b.last())));
    }
}

proof fn lemma_flat_single(z: ZoneView)
    ensures
        flat_zones(seq![z]) == zones_in(z),
{
    assert(seq![z].drop_last() =~= Seq::<ZoneView>::empty());
    assert(flat_zones(Seq::<ZoneView>::empty()) + zones_in(z) =~= zones_in(z));
}

/// Replacing row `j` by `y` swaps its zones for `y`'s in the multiset of zones.
proof fn lemma_flat_update(s: Seq<ZoneView>, j: int, y: ZoneView)
    requires
        0 <= j < s.len(),
    ensures
        flat_zones(s.update(j, y)).to_multiset() == flat_zones(s).to_multiset().sub(
            zones_in(s[j]).to_multiset(),
        ).add(zones_in(y).to_multiset()),
{
    let a = s.subrange(0, j);
    let b = s.subrange(j + 1, s.len() as int);
    assert(s =~= a + seq![s[j]] + b);
    assert(s.update(j, y) =~= a + seq![y] + b);
    lemma_flat_concat(a + seq![s[j]], b);
    lemma_flat_concat(a, seq![s[j]]);
    lemma_flat_concat(a + seq![y], b);
    lemma_flat_concat(a, seq![y]);
    lemma_flat_single(s[j]);
    lemma_flat_single(y);
    let fa = flat_zones(a);
    let fb = flat_zones(b);
    assert(flat_zones(s).to_multiset() =~= fa.to_multiset().add(zones_in(s[j]).to_multiset()).add(
        fb.to_multiset(),
    ));
    assert(flat_zones(s.update(j, y)).to_multiset() =~= fa.to_multiset().add(
        zones_in(y).to_multiset(),
    ).add(fb.to_multiset()));
}

proof fn lemma_insert_flat(s: Seq<ZoneView>, x: ZoneView, now: int)
    ensures
        flat_zones(insert_ordered(s, x, zone_order(now))).to_multiset() == flat_zones(
            s,
        ).to_multiset().add(zones_in(x).to_multiset()),
        peopled(s) && x.members.len() >= 1 ==> peopled(insert_ordered(s, x, zone_order(now))),
{
    let p = lemma_insert_shape(s, x, zone_order(now));
    let a = s.subrange(0, p);
    let b = s.subrange(p, s.len() as int);
    let r = insert_ordered(s, x, zone_order(now));
    assert(s =~= a + b);
    assert(r =~= a + seq![x] + b);
    lemma_flat_concat(a + seq![x], b);
    lemma_flat_concat(a, seq![x]);
    lemma_flat_concat(a, b);
    lemma_flat_single(x);
    assert(flat_zones(r).to_multiset() =~= flat_zones(a).to_multiset().add(
        zones_in(x).to_multiset(),
    ).add(flat_zones(b).to_multiset()));
    if peopled(s) && x.members.len() >= 1 {
        assert forall|i: int| 0 <= i < r.len() implies (#[trigger] r[i]).members.len() >= 1 by {
            if i < p {
                assert(r[i] == s[i]);
            } else if i > p {
                assert(r[i] == s[i - 1]);
            }
        }
    }
}

proof fn lemma_sort_flat(s: Seq<ZoneView>, now: int)
    ensures
        flat_zones(sort_zones(s, now)).to_multiset() == flat_zones(s).to_multiset(),
        peopled(s) ==> peopled(sort_zones(s, now)),
    decreases s.len(),
{
    if s.len() > 0 {
        let d = s.drop_last();
        lemma_sort_flat(d, now);
        lemma_insert_flat(sort_zones(d, now), s.last(), now);
        if peopled(s) {
            assert forall|i: int| 0 <= i < d.len() implies (#[trigger] d[i]).members.len() >= 1 by {
                assert(d[i] == s[i]);
            }
            assert(s[s.len() - 1].members.len() >= 1);
        }
    } else {
        assert(sort_zones(s, now) =~= s);
    }
}

proof fn lemma_merge_one_flat(out: Seq<ZoneView>, e: ZoneView, now: int)
    ensures
        flat_zones(merge_one(out, e, now)).to_multiset() == flat_zones(out).to_multiset().add(
            zones_in(e).to_multiset(),
        ),
        peopled(out) && e.members.len() >= 1 ==> peopled(merge_one(out, e, now)),
{
    let j = first_index(out, has_id(e.id));
    let k = first_index(out, same_clock(e.id, now));
    lemma_first_index_range(out, has_id(e.id));
    lemma_first_index_range(out, same_clock(e.id, now));
    let idx = if j >= 0 {
        j
    } else {
        k
    };
    if idx >= 0 {
        let y = absorb(out[idx], e);
        assert(zones_in(y) =~= zones_in(out[idx]) + zones_in(e));
        lemma_flat_update(out, idx, y);
        let r = out.update(idx, y);
        assert(r == merge_one(out, e, now));
        // the row's own zones are part of the whole
        lemma_flat_part(out, idx);
        if peopled(out) && e.members.len() >= 1 {
            assert forall|i: int| 0 <= i < r.len() implies (#[trigger] r[i]).members.len() >= 1 by {
                if i != idx {
                    assert(r[i] == out[i]);
                }
            }
        }
    } else {
        assert(out.push(e).drop_last() =~= out);
        if peopled(out) && e.members.len() >= 1 {
            let r = out.push(e);
            assert forall|i: int| 0 <= i < r.len() implies (#[trigger] r[i]).members.len() >= 1 by {
                if i < out.len() {
                    assert(r[i] == out[i]);
                }
            }
        }
    }
}

/// The zones of one row are a sub-multiset of the zones of all rows.
proof fn lemma_flat_part(s: Seq<ZoneView>, j: int)
    requires
        0 <= j < s.len(),
    ensures
        zones_in(s[j]).to_multiset().subset_of(flat_zones(s).to_multiset()),
{
    let a = s.subrange(0, j);
    let b = s.subrange(j + 1, s.len() as int);
    assert(s =~= a + seq![s[j]] + b);
    lemma_flat_concat(a + seq![s[j]], b);
    lemma_flat_concat(a, seq![s[j]]);
    lemma_flat_single(s[j]);
}

proof fn lemma_merge_flat(s: Seq<ZoneView>, now: int)
    ensures
        flat_zones(merge_rows(s, now)).to_multiset() == flat_zones(s).to_multiset(),
        peopled(s) ==> peopled(merge_rows(s, now)),
    decreases s.len(),
{
    if s.len() > 0 {
        let d = s.drop_last();
        lemma_merge_flat(d, now);
        lemma_merge_one_flat(merge_rows(d, now), s.last(), now);
        if peopled(s) {
            assert forall|i: int| 0 <= i < d.len() implies (#[trigger] d[i]).members.len() >= 1 by {
                assert(d[i] == s[i]);
            }
            assert(s[s.len() - 1].members.len() >= 1);
        }
    }
}

proof fn lemma_no_dup_parts(a: Seq<Seq<char>>, b: Seq<Seq<char>>)
    requires
        (a + b).no_duplicates(),
    ensures
        a.no_duplicates(),
        b.no_duplicates(),
{
    assert forall|i: int, j: int| 0 <= i < a.len() && 0 <= j < a.len() && i != j implies a[i]
        != a[j] by {
        assert(a[i] == (a + b)[i] && a[j] == (a + b)[j]);
    }
    assert forall|i: int, j: int| 0 <= i < b.len() && 0 <= j < b.len() && i != j implies b[i]
        != b[j] by {
        assert(b[i] == (a + b)[a.len() + i] && b[j] == (a + b)[a.len() + j]);
    }
}

/// Splitting a row whose cities are all in different zones gives one row per city.
proof fn lemma_groups_len(ms: Seq<MemberView>, z: ZoneView)
    requires
        ms.map_values(|m: MemberView| m.timezone).no_duplicates(),
    ensures
        split_groups(ms, z).len() == ms.len(),
        forall|k: int|
            0 <= k < split_groups(ms, z).len() ==> exists|i: int|
                0 <= i < ms.len() && (#[trigger] split_groups(ms, z)[k]).id == ms[i].timezone,
    decreases ms.len(),
{
    if ms.len() > 0 {
        let d = ms.drop_last();
        let tz = ms.map_values(|m: MemberView| m.timezone);
        let td = d.map_values(|m: MemberView| m.timezone);
        assert(tz =~= td + seq![ms.last().timezone]);
        lemma_no_dup_parts(td, seq![ms.last().timezone]);
        lemma_groups_len(d, z);
        let g = split_groups(d, z);
        let m = ms.last();
        let j = first_index(g, has_id(m.timezone));
        if j >= 0 {
            lemma_first_index_sat(g, has_id(m.timezone));
            let i = choose|i: int| 0 <= i < d.len() && g[j].id == d[i].timezone;
            assert(tz[i] == tz[ms.len() - 1]);
        }
        let r = split_groups(ms, z);
        assert forall|k: int| 0 <= k < r.len() implies exists|i: int|
            0 <= i < ms.len() && (#[trigger] r[k]).id == ms[i].timezone by {
            if k < g.len() {
                assert(r[k] == g[k]);
                let i = choose|i: int| 0 <= i < d.len() && g[k].id == d[i].timezone;
                assert(ms[i] == d[i]);
            } else {
                assert(r[k].id == ms[ms.len() - 1].timezone);
            }
        }
    }
}

/// With every city's zone distinct and every row peopled, splitting gives one
/// row per city.
proof fn lemma_split_len(s: Seq<ZoneView>)
    requires
        peopled(s),
        flat_zones(s).no_duplicates(),
    ensures
        split_rows(s).len() == flat_zones(s).len(),
    decreases s.len(),
{
    if s.len() > 0 {
        let d = s.drop_last();
        let z = s.last();
        lemma_no_dup_parts(flat_zones(d), zones_in(z));
        assert forall|i: int| 0 <= i < d.len() implies (#[trigger] d[i]).members.len() >= 1 by {
            assert(d[i] == s[i]);
        }
        lemma_split_len(d);
        assert(z.members.len() >= 1);
        if z.members.len() > 1 {
            lemma_groups_len(z.members, z);
        }
    }
}

/// Rows each holding one city of their own zone list each zone once.
proof fn lemma_flat_singletons(s: Seq<ZoneView>)
    requires
        forall|i: int|
            0 <= i < s.len() ==> (#[trigger] s[i]).members.len() == 1 && s[i].members[0].timezone
                == s[i].id,
    ensures
        flat_zones(s).len() == s.len(),
        forall|i: int| 0 <= i < s.len() ==> flat_zones(s)[i] == (#[trigger] s[i]).id,
    decreases s.len(),
{
    if s.len() > 0 {
        let d = s.drop_last();
        assert forall|i: int|
            0 <= i < d.len() implies (#[trigger] d[i]).members.len() == 1 && d[i].members[0].timezone
            == d[i].id by {
            assert(d[i] == s[i]);
        }
        lemma_flat_singletons(d);
        let z = s.last();
        assert(zones_in(z) =~= seq![z.id]);
        assert forall|i: int| 0 <= i < s.len() implies flat_zones(s)[i] == (#[trigger] s[i]).id by {
            if i < d.len() {
                assert(d[i] == s[i]);
            }
        }
    }
}

/// Merging by time and then splitting again, on rows that each hold one city
/// of their own zone, with no zone on two rows, gives back as many rows as
/// there were.
pub proof fn lemma_merge_split_round_trip(s: Seq<ZoneView>, now: int)
    requires
        unique_holders(s),
        forall|i: int|
            0 <= i < s.len() ==> (#[trigger] s[i]).members.len() == 1 && s[i].members[0].timezone
                == s[i].id,
    ensures
        sort_zones(split_rows(sort_zones(merge_rows(s, now), now)), now).len() == s.len(),
{
    lemma_flat_singletons(s);
    let f = flat_zones(s);
    assert forall|i: int, j: int| 0 <= i < f.len() && 0 <= j < f.len() && i != j implies f[i]
        != f[j] by {
        if f[i] == f[j] {
            assert(holds_zone(s[i], f[i]) && holds_zone(s[j], f[i]));
        }
    }
    assert(peopled(s));
    let m = merge_rows(s, now);
    lemma_merge_flat(s, now);
    let ms = sort_zones(m, now);
    lemma_sort_flat(m, now);
    let g = flat_zones(ms);
    assert(g.to_multiset() == f.to_multiset());
    f.lemma_multiset_has_no_duplicates();
    g.lemma_multiset_has_no_duplicates_conv();
    vstd::seq_lib::to_multiset_len(f);
    vstd::seq_lib::to_multiset_len(g);
    lemma_split_len(ms);
    lemma_sort_len(split_rows(ms), zone_order(now));
}


/// The pieces `f` gives each row, row after row.
pub open spec fn flat_of<A>(s: Seq<ZoneView>, f: spec_fn(ZoneView) -> Seq<A>) -> Seq<A>
    decreases s.len(),
{
    if s.len() == 0 {
        seq![]
    } else {
        flat_of(s.drop_last(), f) + f(s.last())
    }
}

/// A row as its zone and its cities.
pub open spec fn row_pair(z: ZoneView) -> (Seq<char>, Seq<MemberView>) {
    (z.id, z.members)
}

/// A city as the row it would have alone: its zone and itself.
pub open spec fn member_pair(m: MemberView) -> (Seq<char>, Seq<MemberView>) {
    (m.timezone, seq![m])
}

/// A row as its one (zone, cities) pair.
pub open spec fn pair_of_row() -> spec_fn(ZoneView) -> Seq<(Seq<char>, Seq<MemberView>)> {
    |z: ZoneView| seq![row_pair(z)]
}

/// A row as the pairs its cities would have alone.
pub open spec fn pairs_of_members() -> spec_fn(ZoneView) -> Seq<(Seq<char>, Seq<MemberView>)> {
    |z: ZoneView| z.members.map_values(|m: MemberView| member_pair(m))
}

proof fn lemma_flat_of_concat<A>(a: Seq<ZoneView>, b: Seq<ZoneView>, f: spec_fn(ZoneView) -> Seq<A>)
    ensures
        flat_of(a + b, f) == flat_of(a, f) + flat_of(b, f),
    decreases b.len(),
{
    if b.len() == 0 {
        assert(a + b =~= a);
        assert(flat_of(a, f) + flat_of(b, f) =~= flat_of(a, f));
    } else {
        assert((a + b).drop_last() =~= a + b.drop_last());
        lemma_flat_of_concat(a, b.drop_last(), f);
        assert((a + b).last() == b.last());
        assert(flat_of(a, f) + flat_of(b.drop_last(), f) + f(b.last()) =~= flat_of(a, f) + (flat_of(
            b.drop_last(),
            f,
        ) + f(b.last())));
    }
}

proof fn lemma_flat_of_single<A>(z: ZoneView, f: spec_fn(ZoneView) -> Seq<A>)
    ensures
        flat_of(seq![z], f) == f(z),
{
    assert(seq![z].drop_last() =~= Seq::<ZoneView>::empty());
    assert(flat_of(Seq::<ZoneView>::empty(), f) + f(z) =~= f(z));
}

proof fn lemma_flat_of_sort<A>(s: Seq<ZoneView>, now: int, f: spec_fn(ZoneView) -> Seq<A>)
    ensures
        flat_of(sort_zones(s, now), f).to_multiset() == flat_of(s, f).to_multiset(),
    decreases s.len(),
{
    if s.len() > 0 {
        let d = s.drop_last();
        lemma_flat_of_sort(d, now, f);
        let sd = sort_zones(d, now);
        let x = s.last();
        let p = lemma_insert_shape(sd, x, zone_order(now));
        let a = sd.subrange(0, p);
        let b = sd.subrange(p, sd.len() as int);
        assert(sd =~= a + b);
        assert(sort_zones(s, now) =~= a + seq![x] + b);
        lemma_flat_of_concat(a + seq![x], b, f);
        lemma_flat_of_concat(a, seq![x], f);
        lemma_flat_of_concat(a, b, f);
        lemma_flat_of_single(x, f);
    } else {
        assert(sort_zones(s, now) =~= s);
    }
}

proof fn lemma_flat_of_update<A>(
    s: Seq<ZoneView>,
    j: int,
    y: ZoneView,
    f: spec_fn(ZoneView) -> Seq<A>,
)
    requires
        0 <= j < s.len(),
    ensures
        flat_of(s, f).to_multiset() == flat_of(s.subrange(0, j), f).to_multiset().add(
            f(s[j]).to_multiset(),
        ).add(flat_of(s.subrange(j + 1, s.len() as int), f).to_multiset()),
        flat_of(s.update(j, y), f).to_multiset() == flat_of(s.subrange(0, j), f).to_multiset().add(
            f(y).to_multiset(),
        ).add(flat_of(s.subrange(j + 1, s.len() as int), f).to_multiset()),
{
    let a = s.subrange(0, j);
    let b = s.subrange(j + 1, s.len() as int);
    assert(s =~= a + seq![s[j]] + b);
    assert(s.update(j, y) =~= a + seq![y] + b);
    lemma_flat_of_concat(a + seq![s[j]], b, f);
    lemma_flat_of_concat(a, seq![s[j]], f);
    lemma_flat_of_concat(a + seq![y], b, f);
    lemma_flat_of_concat(a, seq![y], f);
    lemma_flat_of_single(s[j], f);
    lemma_flat_of_single(y, f);
}

proof fn lemma_pairs_absorb(z: ZoneView, e: ZoneView)
    ensures
        pairs_of_members()(absorb(z, e)) == pairs_of_members()(z) + pairs_of_members()(e),
{
    assert(pairs_of_members()(absorb(z, e)) =~= pairs_of_members()(z) + pairs_of_members()(e));
}

proof fn lemma_flat_of_merge(s: Seq<ZoneView>, now: int)
    ensures
        flat_of(merge_rows(s, now), pairs_of_members()).to_multiset() == flat_of(
            s,
            pairs_of_members(),
        ).to_multiset(),
    decreases s.len(),
{
    let f = pairs_of_members();
    if s.len() > 0 {
        let d = s.drop_last();
        lemma_flat_of_merge(d, now);
        let out = merge_rows(d, now);
        let e = s.last();
        let j = first_index(out, has_id(e.id));
        let k = first_index(out, same_clock(e.id, now));
        lemma_first_index_range(out, has_id(e.id));
        lemma_first_index_range(out, same_clock(e.id, now));
        if j >= 0 || k >= 0 {
            let idx = if j >= 0 {
                j
            } else {
                k
            };
            let y = absorb(out[idx], e);
            assert(merge_one(out, e, now) == out.update(idx, y));
            lemma_flat_of_update(out, idx, y, f);
            lemma_pairs_absorb(out[idx], e);
        } else {
            assert(merge_one(out, e, now) == out.push(e));
            assert(out.push(e).drop_last() =~= out);
        }
    }
}

/// Rows whose single city, if they have one city, is of the row's own zone.
pub open spec fn tidy(s: Seq<ZoneView>) -> bool {
    forall|i: int|
        0 <= i < s.len() ==> (#[trigger] s[i]).members.len() >= 1 && s[i].members[0].timezone
            == s[i].id
}

proof fn lemma_merge_tidy(s: Seq<ZoneView>, now: int)
    requires
        tidy(s),
    ensures
        tidy(merge_rows(s, now)),
    decreases s.len(),
{
    if s.len() > 0 {
        let d = s.drop_last();
        assert forall|i: int| 0 <= i < d.len() implies (#[trigger] d[i]).members.len() >= 1
            && d[i].members[0].timezone == d[i].id by {
            assert(d[i] == s[i]);
        }
        lemma_merge_tidy(d, now);
        let out = merge_rows(d, now);
        let e = s.last();
        assert(e == s[s.len() - 1]);
        let j = first_index(out, has_id(e.id));
        let k = first_index(out, same_clock(e.id, now));
        lemma_first_index_range(out, has_id(e.id));
        lemma_first_index_range(out, same_clock(e.id, now));
        let r = merge_one(out, e, now);
        if j >= 0 || k >= 0 {
            let idx = if j >= 0 {
                j
            } else {
                k
            };
            assert(r == out.update(idx, absorb(out[idx], e)));
            assert forall|i: int| 0 <= i < r.len() implies (#[trigger] r[i]).members.len() >= 1
                && r[i].members[0].timezone == r[i].id by {
                if i == idx {
                    assert(r[i].members[0] == out[idx].members[0]);
                }
            }
        } else {
            assert(r == out.push(e));
            assert forall|i: int| 0 <= i < r.len() implies (#[trigger] r[i]).members.len() >= 1
                && r[i].members[0].timezone == r[i].id by {
                if i < out.len() {
                    assert(r[i] == out[i]);
                }
            }
        }
    }
}

proof fn lemma_sort_tidy(s: Seq<ZoneView>, now: int)
    requires
        tidy(s),
    ensures
        tidy(sort_zones(s, now)),
{
    lemma_sort_len(s, zone_order(now));
    let r = sort_zones(s, now);
    assert forall|i: int| 0 <= i < r.len() implies (#[trigger] r[i]).members.len() >= 1
        && r[i].members[0].timezone == r[i].id by {
        lemma_sort_from(s, zone_order(now), i);
    }
}

/// Splitting the cities `ms`, whose zones are all distinct, gives each city a
/// row of its own.
proof fn lemma_groups_pairs(ms: Seq<MemberView>, z: ZoneView)
    requires
        ms.map_values(|m: MemberView| m.timezone).no_duplicates(),
    ensures
        split_groups(ms, z).map_values(|y: ZoneView| row_pair(y)) == ms.map_values(
            |m: MemberView| member_pair(m),
        ),
    decreases ms.len(),
{
    if ms.len() > 0 {
        let d = ms.drop_last();
        let tz = ms.map_values(|m: MemberView| m.timezone);
        let td = d.map_values(|m: MemberView| m.timezone);
        assert(tz =~= td + seq![ms.last().timezone]);
        lemma_no_dup_parts(td, seq![ms.last().timezone]);
        lemma_groups_pairs(d, z);
        lemma_groups_len(d, z);
        let g = split_groups(d, z);
        let m = ms.last();
        let j = first_index(g, has_id(m.timezone));
        lemma_first_index_range(g, has_id(m.timezone));
        if j >= 0 {
            lemma_first_index_sat(g, has_id(m.timezone));
            let i = choose|i: int| 0 <= i < d.len() && g[j].id == d[i].timezone;
            assert(tz[i] == tz[ms.len() - 1]);
        }
        let r = split_groups(ms, z);
        assert(r.map_values(|y: ZoneView| row_pair(y)) =~= g.map_values(|y: ZoneView| row_pair(y)).push(
            member_pair(m),
        ));
        assert(ms.map_values(|x: MemberView| member_pair(x)) =~= d.map_values(
            |x: MemberView| member_pair(x),
        ).push(member_pair(m)));
    }
}

proof fn lemma_flat_of_rows(s: Seq<ZoneView>)
    ensures
        flat_of(s, pair_of_row()) == s.map_values(|y: ZoneView| row_pair(y)),
    decreases s.len(),
{
    if s.len() > 0 {
        lemma_flat_of_rows(s.drop_last());
        assert(s.map_values(|y: ZoneView| row_pair(y)) =~= s.drop_last().map_values(
            |y: ZoneView| row_pair(y),
        ) + seq![row_pair(s.last())]);
    } else {
        assert(s.map_values(|y: ZoneView| row_pair(y)) =~= Seq::<(Seq<char>, Seq<MemberView>)>::empty());
    }
}

/// Splitting tidy rows whose cities all have distinct zones gives each city
/// a row of its own, in order.
proof fn lemma_split_pairs(s: Seq<ZoneView>)
    requires
        tidy(s),
        flat_zones(s).no_duplicates(),
    ensures
        flat_of(split_rows(s), pair_of_row()) == flat_of(s, pairs_of_members()),
    decreases s.len(),
{
    if s.len() > 0 {
        let d = s.drop_last();
        let z = s.last();
        assert(z == s[s.len() - 1]);
        lemma_no_dup_parts(flat_zones(d), zones_in(z));
        assert forall|i: int| 0 <= i < d.len() implies (#[trigger] d[i]).members.len() >= 1
            && d[i].members[0].timezone == d[i].id by {
            assert(d[i] == s[i]);
        }
        lemma_split_pairs(d);
        lemma_flat_of_concat(split_rows(d), split_row(z), pair_of_row());
        lemma_flat_of_rows(split_row(z));
        if z.members.len() <= 1 {
            assert(z.members =~= seq![z.members[0]]);
            assert(split_row(z).map_values(|y: ZoneView| row_pair(y)) =~= pairs_of_members()(z));
        } else {
            assert(zones_in(z) == z.members.map_values(|m: MemberView| m.timezone));
            lemma_groups_pairs(z.members, z);
            assert(split_row(z) == split_groups(z.members, z));
            assert(pairs_of_members()(z) == z.members.map_values(|m: MemberView| member_pair(m)));
            assert(split_row(z).map_values(|y: ZoneView| row_pair(y)) == pairs_of_members()(z));
        }
    }
}

/// Rows each holding one city of their own zone are exactly the rows their
/// cities would have alone.
proof fn lemma_singleton_pairs(s: Seq<ZoneView>)
    requires
        forall|i: int|
            0 <= i < s.len() ==> (#[trigger] s[i]).members.len() == 1 && s[i].members[0].timezone
                == s[i].id,
    ensures
        flat_of(s, pairs_of_members()) == flat_of(s, pair_of_row()),
    decreases s.len(),
{
    if s.len() > 0 {
        let d = s.drop_last();
        assert forall|i: int|
            0 <= i < d.len() implies (#[trigger] d[i]).members.len() == 1 && d[i].members[0].timezone
            == d[i].id by {
            assert(d[i] == s[i]);
        }
        lemma_singleton_pairs(d);
        let z = s.last();
        assert(z == s[s.len() - 1]);
        assert(z.members =~= seq![z.members[0]]);
        assert(pairs_of_members()(z) =~= pair_of_row()(z));
    }
}

/// Merging by time and then splitting again, on rows that each hold one city
/// of their own zone, with no zone on two rows, gives back the same rows:
/// the same (zone, cities) pairs, each as often, in offset order.
pub proof fn lemma_merge_split_restores_rows(s: Seq<ZoneView>, now: int)
    requires
        unique_holders(s),
        forall|i: int|
            0 <= i < s.len() ==> (#[trigger] s[i]).members.len() == 1 && s[i].members[0].timezone
                == s[i].id,
    ensures
        sort_zones(split_rows(sort_zones(merge_rows(s, now), now)), now).map_values(
            |y: ZoneView| row_pair(y),
        ).to_multiset() == s.map_values(|y: ZoneView| row_pair(y)).to_multiset(),
{
    let m = merge_rows(s, now);
    let ms = sort_zones(m, now);
    let r = split_rows(ms);
    let fin = sort_zones(r, now);
    // the cities' zones stay distinct
    lemma_flat_singletons(s);
    let f = flat_zones(s);
    assert forall|i: int, j: int| 0 <= i < f.len() && 0 <= j < f.len() && i != j implies f[i]
        != f[j] by {
        if f[i] == f[j] {
            assert(holds_zone(s[i], f[i]) && holds_zone(s[j], f[i]));
        }
    }
    lemma_merge_flat(s, now);
    lemma_sort_flat(m, now);
    let g = flat_zones(ms);
    f.lemma_multiset_has_no_duplicates();
    g.lemma_multiset_has_no_duplicates_conv();
    // rows stay tidy
    assert(tidy(s));
    lemma_merge_tidy(s, now);
    lemma_sort_tidy(m, now);
    // the pairs
    lemma_flat_of_sort(r, now, pair_of_row());
    lemma_split_pairs(ms);
    lemma_flat_of_sort(m, now, pairs_of_members());
    lemma_flat_of_merge(s, now);
    lemma_singleton_pairs(s);
    lemma_flat_of_rows(fin);
    lemma_flat_of_rows(s);
}

} // verus!
