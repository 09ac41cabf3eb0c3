//! The city catalog and the ranked search over it.

use vstd::prelude::*;

use crate::order::{insert_ordered, lemma_insert_at, sort_ordered};
use crate::text::{
    chars_of, contains, has_infix, has_prefix, lex_lt, less_than, lower_of, lowercase, same_chars,
    starts_with, trim, trimmed,
};

verus! {

/// One city of the reference catalog.
#[derive(Debug, Clone)]
pub struct CityData {
    pub name: String,
    /// Three- or four-letter short code.
    pub code: String,
    /// IANA timezone identifier.
    pub timezone: String,
    pub country: String,
    /// Latitude in millionths of a degree.
    pub latitude_micro: i32,
    /// Longitude in millionths of a degree.
    pub longitude_micro: i32,
    pub aliases: Vec<String>,
}

/// The reference catalog: every known city, and the names of the major ones.
#[derive(Debug, Clone)]
pub struct CitiesData {
    pub cities: Vec<CityData>,
    pub major_cities: Vec<String>,
}

/// Most results a search returns.
pub const MAX_RESULTS: usize = 8;

/// Points for the city's name or code against the query.
pub open spec fn name_points(name: Seq<char>, code: Seq<char>, q: Seq<char>) -> int {
    if name == q || code == q {
        1000
    } else if has_prefix(name, q) || has_prefix(code, q) {
        500
    } else if has_infix(name, q) || has_infix(code, q) {
        200
    } else {
        0
    }
}

/// Points for one alias (already lower-cased) against the query.
pub open spec fn alias_points(alias: Seq<char>, q: Seq<char>) -> int {
    if alias == q {
        800
    } else if has_prefix(alias, q) {
        400
    } else if has_infix(alias, q) {
        150
    } else {
        0
    }
}

/// Points summed over all aliases.
pub open spec fn aliases_points(aliases: Seq<String>, q: Seq<char>) -> int
    decreases aliases.len(),
{
    if aliases.len() == 0 {
        0
    } else {
        aliases_points(aliases.drop_last(), q) + alias_points(lower_of(aliases.last()@), q)
    }
}

/// Whether `name` is listed among the major cities.
pub open spec fn is_major(majors: Seq<String>, name: Seq<char>) -> bool {
    exists|i: int| 0 <= i < majors.len() && (#[trigger] majors[i])@ == name
}

/// Score of a city for a lower-cased, trimmed query: name or code, each
/// alias, the country and the timezone identifier add points independently;
/// a major city that matched at all gets a bonus.
pub open spec fn score_of(city: CityData, q: Seq<char>, majors: Seq<String>) -> int {
    let base = name_points(lower_of(city.name@), lower_of(city.code@), q) + aliases_points(
        city.aliases@,
        q,
    ) + (if has_infix(lower_of(city.country@), q) {
        100int
    } else {
        0
    }) + (if has_infix(lower_of(city.timezone@), q) {
        50int
    } else {
        0
    });
    if base > 0 && is_major(majors, city.name@) {
        base + 25
    } else {
        base
    }
}

/// The label a city is listed under: its name and country.
pub open spec fn label_of(city: CityData) -> Seq<char> {
    city.name@ + ", "@ + city.country@
}

/// The cities of `cities` that score above zero, as (label, score), in catalog order.
pub open spec fn scored(cities: Seq<CityData>, q: Seq<char>, majors: Seq<String>) -> Seq<
    (Seq<char>, int),
>
    decreases cities.len(),
{
    if cities.len() == 0 {
        seq![]
    } else {
        let rest = scored(cities.drop_last(), q, majors);
        let c = cities.last();
        if score_of(c, q, majors) > 0 {
            rest.push((label_of(c), score_of(c, q, majors)))
        } else {
            rest
        }
    }
}

/// Ranking order: higher score first, then alphabetical by label.
pub open spec fn ranks_before(a: (Seq<char>, int), b: (Seq<char>, int)) -> bool {
    a.1 > b.1 || (a.1 == b.1 && lex_lt(a.0, b.0))
}

/// `ranks_before` as a value.
pub open spec fn rank_order() -> spec_fn((Seq<char>, int), (Seq<char>, int)) -> bool {
    |a: (Seq<char>, int), b: (Seq<char>, int)| ranks_before(a, b)
}

/// The query as it is matched: lower-cased, then trimmed.
pub open spec fn folded_query(query: Seq<char>) -> Seq<char> {
    trimmed(lower_of(query))
}

/// Labels of the best-ranked cities for a query, at most `MAX_RESULTS`.
pub open spec fn search_result(catalog: CitiesData, query: Seq<char>) -> Seq<Seq<char>> {
    ranking(catalog, folded_query(query))
}

/// Labels of the best-ranked cities for an already folded query `q`, at most
/// `MAX_RESULTS`; none for an empty query.
pub open spec fn ranking(catalog: CitiesData, q: Seq<char>) -> Seq<Seq<char>> {
    if q.len() == 0 {
        seq![]
    } else {
        let ranked = sort_ordered(scored(catalog.cities@, q, catalog.major_cities@), rank_order());
        let top = if ranked.len() > MAX_RESULTS {
            ranked.take(MAX_RESULTS as int)
        } else {
            ranked
        };
        top.map_values(|p: (Seq<char>, int)| p.0)
    }
}

/// Lower-cased characters of a string.
fn folded(s: &String) -> (r: Vec<char>)
    ensures
        r@ == lower_of(s@),
{
    let l = lowercase(s.as_str());
    chars_of(l.as_str())
}

fn name_score(name: &Vec<char>, code: &Vec<char>, q: &Vec<char>) -> (r: u128)
    ensures
        r as int == name_points(name@, code@, q@),
{
    if same_chars(name, q) || same_chars(code, q) {
        1000
    } else if starts_with(name, q) || starts_with(code, q) {
        500
    } else if contains(name, q) || contains(code, q) {
        200
    } else {
        0
    }
}

fn alias_score(alias: &String, q: &Vec<char>) -> (r: u128)
    ensures
        r as int == alias_points(lower_of(alias@), q@),
{
    let a = folded(alias);
    if same_chars(&a, q) {
        800
    } else if starts_with(&a, q) {
        400
    } else if contains(&a, q) {
        150
    } else {
        0
    }
}

fn major(majors: &Vec<String>, name: &String) -> (r: bool)
    ensures
        r == is_major(majors@, name@),
{
    let mut i: usize = 0;
    while i < majors.len()
        invariant
            i <= majors@.len(),
            forall|j: int| 0 <= j < i ==> (#[trigger] majors@[j])@ != name@,
        decreases majors@.len() - i,
    {
        if majors[i] == *name {
            return true;
        }
        i = i + 1;
    }
    false
}

/// The score of one city for a lower-cased, trimmed query.
pub fn city_score(city: &CityData, q: &Vec<char>, majors: &Vec<String>) -> (r: u128)
    ensures
        r as int == score_of(*city, q@, majors@),
{
    let name = folded(&city.name);
    let code = folded(&city.code);
    let mut score: u128 = name_score(&name, &code, q);
    let mut i: usize = 0;
    while i < city.aliases.len()
        invariant
            i <= city.aliases@.len(),
            score as int == name_points(lower_of(city.name@), lower_of(city.code@), q@)
                + aliases_points(city.aliases@.take(i as int), q@),
            score <= 1000 + 800 * (i as int),
        decreases city.aliases@.len() - i,
    {
        let pts = alias_score(&city.aliases[i], q);
        proof {
            assert(city.aliases@.take(i + 1).drop_last() =~= city.aliases@.take(i as int));
        }
        score = score + pts;
        i = i + 1;
    }
    assert(city.aliases@.take(i as int) =~= city.aliases@);
    let country = folded(&city.country);
    if contains(&country, q) {
        score = score + 100;
    }
    let zone = folded(&city.timezone);
    if contains(&zone, q) {
        score = score + 50;
    }
    if score > 0 && major(majors, &city.name) {
        score = score + 25;
    }
    score
}

/// The (label, score) pairs of a ranking, as values.
pub open spec fn ranking_view(v: Seq<(String, u128)>) -> Seq<(Seq<char>, int)> {
    v.map_values(|p: (String, u128)| (p.0@, p.1 as int))
}

/// Whether `a` ranks before `b`.
fn ranked_before(a: &(String, u128), b: &(String, u128)) -> (r: bool)
    ensures
        r == ranks_before((a.0@, a.1 as int), (b.0@, b.1 as int)),
{
    if a.1 != b.1 {
        a.1 > b.1
    } else {
        let x = chars_of(a.0.as_str());
        let y = chars_of(b.0.as_str());
        less_than(&x, &y)
    }
}

/// Places `x` into the ranking after every entry it does not rank before.
fn insert_ranked(v: &mut Vec<(String, u128)>, x: (String, u128))
    ensures
        ranking_view(final(v)@) == insert_ordered(
            ranking_view(old(v)@),
            (x.0@, x.1 as int),
            rank_order(),
        ),
{
    let ghost s = ranking_view(v@);
    let ghost xv = (x.0@, x.1 as int);
    let mut p: usize = v.len();
    loop
        invariant
            s == ranking_view(v@),
            xv == (x.0@, x.1 as int),
            p <= v@.len(),
            forall|j: int| p <= j < s.len() ==> rank_order()(xv, #[trigger] s[j]),
        ensures
            p <= v@.len(),
            forall|j: int| p <= j < s.len() ==> rank_order()(xv, #[trigger] s[j]),
            p == 0 || !rank_order()(xv, s[p - 1]),
        decreases p,
    {
        if p == 0 {
            break;
        }
        let earlier = ranked_before(&x, &v[p - 1]);
        assert(s[p - 1] == (v@[p - 1].0@, v@[p - 1].1 as int));
        if !earlier {
            break;
        }
        p = p - 1;
    }
    proof {
        lemma_insert_at(s, xv, rank_order(), p as int);
    }
    v.insert(p, x);
    proof {
        assert(ranking_view(v@) =~= s.subrange(0, p as int).push(xv) + s.subrange(
            p as int,
            s.len() as int,
        ));
    }
}

/// The labels of the best-matching cities for a free-text query, best first:
/// higher score first, ties in alphabetical order of label, at most
/// `MAX_RESULTS` of them. A query that is empty once trimmed finds nothing.
pub fn search_timezones(catalog: &CitiesData, query: &str) -> (r: Vec<String>)
    ensures
        r@.map_values(|s: String| s@) == search_result(*catalog, query@),
        query@.len() == 0 ==> r@.len() == 0,
{
    let lowered = lowercase(query);
    let q_str = trim(lowered.as_str());
    let q = chars_of(q_str);
    let r = rank_cities(catalog, &q);
    proof {
        if query@.len() == 0 {
            assert(r@.map_values(|s: String| s@).len() == 0);
        }
    }
    r
}

/// The labels of the cities that best match `q`, a query already lower-cased
/// and trimmed, ranked as `search_timezones` ranks them.
pub fn rank_cities(catalog: &CitiesData, q: &Vec<char>) -> (r: Vec<String>)
    ensures
        r@.map_values(|s: String| s@) == ranking(*catalog, q@),
{
    if q.len() == 0 {
        let empty: Vec<String> = Vec::new();
        assert(empty@.map_values(|s: String| s@) =~= Seq::<Seq<char>>::empty());
        return empty;
    }
    let ghost cities = catalog.cities@;
    let ghost majors = catalog.major_cities@;
    let ghost found = scored(cities, q@, majors);
    let mut ranking: Vec<(String, u128)> = Vec::new();
    let mut i: usize = 0;
    while i < catalog.cities.len()
        invariant
            cities == catalog.cities@,
            majors == catalog.major_cities@,
            i <= cities.len(),
            ranking_view(ranking@) == sort_ordered(scored(cities.take(i as int), q@, majors), rank_order()),
        decreases cities.len() - i,
    {
        let city = &catalog.cities[i];
        let score = city_score(city, q, &catalog.major_cities);
        proof {
            assert(cities.take(i + 1).drop_last() =~= cities.take(i as int));
            assert(cities.take(i + 1).last() == cities[i as int]);
        }
        if score > 0 {
            let mut label = city.name.clone();
            label.append(", ");
            label.append(city.country.as_str());
            let ghost sc = scored(cities.take(i as int), q@, majors);
            let ghost entry = (label@, score as int);
            proof {
                assert(sc.push(entry).drop_last() =~= sc);
            }
            insert_ranked(&mut ranking, (label, score));
        }
        i = i + 1;
    }
    assert(cities.take(i as int) =~= cities);
    let ghost ranked = ranking_view(ranking@);
    let mut out: Vec<String> = Vec::new();
    let mut k: usize = 0;
    let n = if ranking.len() > MAX_RESULTS {
        MAX_RESULTS
    } else {
        ranking.len()
    };
    while k < n
        invariant
            ranked == ranking_view(ranking@),
            n <= ranking@.len(),
            k <= n,
            out@.map_values(|s: String| s@) == ranked.take(k as int).map_values(
                |p: (Seq<char>, int)| p.0,
            ),
        decreases n - k,
    {
        out.push(ranking[k].0.clone());
        proof {
            assert(ranked.take(k + 1) =~= ranked.take(k as int).push(ranked[k as int]));
            assert(out@.map_values(|s: String| s@) =~= ranked.take(k as int).map_values(
                |p: (Seq<char>, int)| p.0,
            ).push(ranked[k as int].0));
            assert(ranked.take(k + 1).map_values(|p: (Seq<char>, int)| p.0) =~= ranked.take(
                k as int,
            ).map_values(|p: (Seq<char>, int)| p.0).push(ranked[k as int].0));
        }
        k = k + 1;
    }
    proof {
        if ranked.len() <= MAX_RESULTS {
            assert(ranked.take(k as int) =~= ranked);
        }
    }
    out
}

} // verus!
