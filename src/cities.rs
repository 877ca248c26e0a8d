use vstd::prelude::*;
use crate::reader::lines_view;
use crate::text::{split_by, fields_view, parse_signed, split_line_by, parse_signed_text};

verus! {

/// How many records carry the city name `name`.
pub open spec fn name_count(cities: Seq<(String, String)>, name: Seq<char>) -> nat
    decreases cities.len(),
{
    if cities.len() == 0 {
        0
    } else {
        name_count(cities.drop_last(), name) + if cities.last().0@ == name { 1nat } else { 0nat }
    }
}

pub open spec fn de_code() -> Seq<char> {
    seq!['D', 'E']
}

/// Some record with city name `name` lies in the country `DE`.
pub open spec fn named_in_de(cities: Seq<(String, String)>, name: Seq<char>) -> bool {
    exists|i: int| 0 <= i < cities.len() && #[trigger] cities[i].0@ == name && cities[i].1@ == de_code()
}

/// A city name is kept: always, or only when some record of it lies in `DE`.
pub open spec fn kept(cities: Seq<(String, String)>, name: Seq<char>, only_de: bool) -> bool {
    !only_de || named_in_de(cities, name)
}

/// The table `r` has a row for the name `n`.
pub open spec fn table_has(r: Seq<(String, usize)>, n: Seq<char>) -> bool {
    exists|k: int| 0 <= k < r.len() && #[trigger] r[k].0@ == n
}

spec fn groups_have(groups: Seq<(String, usize, bool)>, n: Seq<char>) -> bool {
    exists|k: int| 0 <= k < groups.len() && #[trigger] groups[k].0@ == n
}

/// `r` lists each kept city name of `cities` exactly once, with the number of
/// records of that name, ordered by that number from the largest down.
pub open spec fn is_frequency_table(
    cities: Seq<(String, String)>,
    r: Seq<(String, usize)>,
    only_de: bool,
) -> bool {
    &&& forall|k: int|
        0 <= k < r.len() ==> {
            &&& r[k].1 as nat == name_count(cities, r[k].0@)
            &&& r[k].1 > 0
            &&& kept(cities, r[k].0@, only_de)
        }
    &&& forall|i: int|
        0 <= i < cities.len() && kept(cities, cities[i].0@, only_de) ==> table_has(r, #[trigger] cities[i].0@)
    &&& forall|j: int, k: int| 0 <= j < k < r.len() ==> r[j].0@ != r[k].0@
    &&& forall|j: int, k: int| 0 <= j < k < r.len() ==> r[j].1 >= r[k].1
}

proof fn lemma_name_count_absent(cities: Seq<(String, String)>, name: Seq<char>)
    requires
        forall|j: int| 0 <= j < cities.len() ==> #[trigger] cities[j].0@ != name,
    ensures
        name_count(cities, name) == 0,
    decreases cities.len(),
{
    if cities.len() > 0 {
        assert forall|j: int| 0 <= j < cities.drop_last().len() implies #[trigger] cities.drop_last()[j].0@ != name by {
            assert(cities.drop_last()[j] == cities[j]);
        }
        lemma_name_count_absent(cities.drop_last(), name);
    }
}

fn is_de(country: &String) -> (r: bool)
    ensures
        r == (country@ == de_code()),
{
    let de = "DE".to_owned();
    proof {
        reveal_strlit("DE");
    }
    assert(de@ =~= de_code());
    *country == de
}

/// The index of the group named `name`, or the number of groups if none is.
fn find_name(groups: &Vec<(String, usize, bool)>, name: &String) -> (k: usize)
    ensures
        k <= groups.len(),
        forall|m: int| 0 <= m < k ==> groups@[m].0@ != name@,
        k < groups.len() ==> groups@[k as int].0@ == name@,
{
    let mut k: usize = 0;
    while k < groups.len()
        invariant
            k <= groups.len(),
            forall|m: int| 0 <= m < k ==> groups@[m].0@ != name@,
        decreases groups.len() - k,
    {
        if groups[k].0 == *name {
            return k;
        }
        k = k + 1;
    }
    k
}

/// The first index whose count is below `c`, or the length if there is none.
fn insert_position(r: &Vec<(String, usize)>, c: usize) -> (p: usize)
    ensures
        p <= r.len(),
        forall|q: int| 0 <= q < p ==> r@[q].1 >= c,
        p < r.len() ==> r@[p as int].1 < c,
{
    let mut p: usize = 0;
    while p < r.len()
        invariant
            p <= r.len(),
            forall|q: int| 0 <= q < p ==> r@[q].1 >= c,
        decreases r.len() - p,
    {
        if r[p].1 < c {
            return p;
        }
        p = p + 1;
    }
    p
}

/// Groups the records by city name: for each name in order of first
/// appearance, the number of its records and whether one of them lies in `DE`.
fn group_by_name(cities: &Vec<(String, String)>) -> (r: Vec<(String, usize, bool)>)
    ensures
        forall|k: int|
            0 <= k < r.len() ==> {
                &&& r@[k].1 as nat == name_count(cities@, r@[k].0@)
                &&& r@[k].1 > 0
                &&& r@[k].2 == named_in_de(cities@, r@[k].0@)
            },
        forall|i: int| 0 <= i < cities.len() ==> groups_have(r@, #[trigger] cities@[i].0@),
        forall|j: int, k: int| 0 <= j < k < r.len() ==> r@[j].0@ != r@[k].0@,
{
    let mut groups: Vec<(String, usize, bool)> = Vec::new();
    let mut i: usize = 0;
    while i < cities.len()
        invariant
            i <= cities.len(),
            forall|k: int|
                0 <= k < groups.len() ==> {
                    &&& groups@[k].1 as nat == name_count(cities@.take(i as int), groups@[k].0@)
                    &&& 0 < groups@[k].1 <= i
                    &&& groups@[k].2 == named_in_de(cities@.take(i as int), groups@[k].0@)
                },
            forall|j: int| 0 <= j < i ==> groups_have(groups@, #[trigger] cities@[j].0@),
            forall|j: int, k: int| 0 <= j < k < groups.len() ==> groups@[j].0@ != groups@[k].0@,
        decreases cities.len() - i,
    {
        let ghost prev = cities@.take(i as int);
        let ghost next = cities@.take(i as int + 1);
        assert(next.drop_last() =~= prev);
        assert(next.last() == cities@[i as int]);
        assert forall|n: Seq<char>| #[trigger] named_in_de(next, n) == (named_in_de(prev, n) || (
        cities@[i as int].0@ == n && cities@[i as int].1@ == de_code())) by {
            if named_in_de(next, n) {
                let w = choose|w: int| 0 <= w < next.len() && #[trigger] next[w].0@ == n && next[w].1@ == de_code();
                if w < i {
                    assert(prev[w] == next[w]);
                }
            }
            if named_in_de(prev, n) {
                let w = choose|w: int| 0 <= w < prev.len() && #[trigger] prev[w].0@ == n && prev[w].1@ == de_code();
                assert(next[w] == prev[w]);
            }
            if cities@[i as int].0@ == n && cities@[i as int].1@ == de_code() {
                assert(next[i as int] == cities@[i as int]);
            }
        }
        let de = is_de(&cities[i].1);
        let k = find_name(&groups, &cities[i].0);
        assert forall|n: Seq<char>| #[trigger] name_count(next, n) == name_count(prev, n) + if cities@[i as int].0@ == n { 1nat } else { 0nat } by {}
        let ghost old_groups = groups@;
        if k < groups.len() {
            let name = groups[k].0.clone();
            let count = groups[k].1;
            let in_de = groups[k].2;
            groups.set(k, (name, count + 1, in_de || de));
        } else {
            groups.push((cities[i].0.clone(), 1, de));
        }
        proof {
            let n = cities@[i as int].0@;
            if k == old_groups.len() {
                assert forall|j: int| 0 <= j < prev.len() implies #[trigger] prev[j].0@ != n by {
                    assert(groups_have(old_groups, cities@[j].0@));
                    let m = choose|m: int| 0 <= m < old_groups.len() && #[trigger] old_groups[m].0@ == cities@[j].0@;
                    assert(prev[j] == cities@[j]);
                }
                lemma_name_count_absent(prev, n);
                assert(!named_in_de(prev, n));
            }
            assert forall|m: int| 0 <= m < groups.len() implies {
                &&& groups@[m].1 as nat == name_count(next, groups@[m].0@)
                &&& 0 < groups@[m].1 <= i + 1
                &&& groups@[m].2 == named_in_de(next, groups@[m].0@)
            } by {
                if m != k {
                    assert(groups@[m] == old_groups[m]);
                    if k < old_groups.len() && m > k {
                        assert(old_groups[k as int].0@ != old_groups[m].0@);
                    }
                    assert(groups@[m].0@ != n);
                }
            }
        }
        assert forall|j: int| 0 <= j < i + 1 implies groups_have(groups@, #[trigger] cities@[j].0@) by {
            if j < i {
                assert(groups_have(old_groups, cities@[j].0@));
                let m = choose|m: int| 0 <= m < old_groups.len() && #[trigger] old_groups[m].0@ == cities@[j].0@;
                assert(groups@[m].0@ == old_groups[m].0@);
            } else {
                assert(groups@[k as int].0@ == cities@[j].0@);
            }
        }
        i = i + 1;
    }
    assert(cities@.take(cities.len() as int) =~= cities@);
    groups
}

/// `item` is the name and count of one of the first `k` groups that is kept.
spec fn from_group(groups: Seq<(String, usize, bool)>, k: int, item: (String, usize), only_de: bool) -> bool {
    exists|g: int|
        0 <= g < k && #[trigger] groups[g].0@ == item.0@ && groups[g].1 == item.1 && (!only_de || groups[g].2)
}

/// Builds the frequency table from groups; keeps all names, or only those
/// flagged as lying in `DE`.
fn sorted_table(
    cities: &Vec<(String, String)>,
    groups: &Vec<(String, usize, bool)>,
    only_de: bool,
) -> (r: Vec<(String, usize)>)
    requires
        forall|k: int|
            0 <= k < groups.len() ==> {
                &&& groups@[k].1 as nat == name_count(cities@, groups@[k].0@)
                &&& groups@[k].1 > 0
                &&& groups@[k].2 == named_in_de(cities@, groups@[k].0@)
            },
        forall|i: int| 0 <= i < cities.len() ==> groups_have(groups@, #[trigger] cities@[i].0@),
        forall|j: int, k: int| 0 <= j < k < groups.len() ==> #[trigger] groups@[j].0@ != #[trigger] groups@[k].0@,
    ensures
        is_frequency_table(cities@, r@, only_de),
{
    let mut r: Vec<(String, usize)> = Vec::new();
    let mut k: usize = 0;
    while k < groups.len()
        invariant
            k <= groups.len(),
            forall|q: int| 0 <= q < r.len() ==> from_group(groups@, k as int, #[trigger] r@[q], only_de),
            forall|j: int, m: int| 0 <= j < m < groups.len() ==> #[trigger] groups@[j].0@ != #[trigger] groups@[m].0@,
            forall|g: int| 0 <= g < k && (!only_de || groups@[g].2) ==> table_has(r@, #[trigger] groups@[g].0@),
            forall|p: int, q: int| 0 <= p < q < r.len() ==> r@[p].0@ != r@[q].0@,
            forall|p: int, q: int| 0 <= p < q < r.len() ==> r@[p].1 >= r@[q].1,
        decreases groups.len() - k,
    {
        if !only_de || groups[k].2 {
            let c = groups[k].1;
            let p = insert_position(&r, c);
            let ghost old_r = r@;
            let item = (groups[k].0.clone(), c);
            r.insert(p, item);
            proof {
                old_r.insert_ensures(p as int, item);
                assert forall|q: int| 0 <= q < old_r.len() implies old_r[q].0@ != groups@[k as int].0@ by {
                    assert(from_group(groups@, k as int, old_r[q], only_de));
                    let g = choose|g: int| 0 <= g < k && #[trigger] groups@[g].0@ == old_r[q].0@ && groups@[g].1 == old_r[q].1 && (!only_de || groups@[g].2);
                    assert(0 <= g < k < groups.len());
                    assert(groups@[g].0@ != groups@[k as int].0@);
                }
                assert forall|q: int| p <= q < old_r.len() implies old_r[q].1 < c by {
                    if q > p {
                        assert(old_r[p as int].1 >= old_r[q].1);
                    }
                }
                assert forall|q: int| 0 <= q < r.len() implies from_group(groups@, k + 1, #[trigger] r@[q], only_de) by {
                    if q < p {
                        assert(r@[q] == old_r[q]);
                        assert(from_group(groups@, k as int, old_r[q], only_de));
                    } else if q == p {
                        assert(groups@[k as int].0@ == r@[q].0@);
                    } else {
                        assert(r@[q] == old_r[q - 1]);
                        assert(from_group(groups@, k as int, old_r[q - 1], only_de));
                    }
                }
                assert forall|g: int| 0 <= g < k + 1 && (!only_de || groups@[g].2) implies table_has(r@, #[trigger] groups@[g].0@) by {
                    if g < k {
                        assert(table_has(old_r, groups@[g].0@));
                        let q = choose|q: int| 0 <= q < old_r.len() && #[trigger] old_r[q].0@ == groups@[g].0@;
                        if q < p {
                            assert(r@[q] == old_r[q]);
                        } else {
                            assert(r@[q + 1] == old_r[q]);
                        }
                    } else {
                        assert(r@[p as int].0@ == groups@[g].0@);
                    }
                }
            }
        }
        k = k + 1;
    }
    proof {
        assert forall|q: int| 0 <= q < r.len() implies {
            &&& r@[q].1 as nat == name_count(cities@, r@[q].0@)
            &&& r@[q].1 > 0
            &&& kept(cities@, r@[q].0@, only_de)
        } by {
            assert(from_group(groups@, k as int, r@[q], only_de));
            let g = choose|g: int| 0 <= g < k && #[trigger] groups@[g].0@ == r@[q].0@ && groups@[g].1 == r@[q].1 && (!only_de || groups@[g].2);
        }
        assert forall|i: int| 0 <= i < cities.len() && kept(cities@, cities@[i].0@, only_de) implies table_has(r@, #[trigger] cities@[i].0@) by {
            assert(groups_have(groups@, cities@[i].0@));
            let g = choose|g: int| 0 <= g < groups.len() && #[trigger] groups@[g].0@ == cities@[i].0@;
            assert(groups@[g].0@ == cities@[i].0@);
            assert(table_has(r@, groups@[g].0@));
        }
    }
    r
}

/// The city names with the number of records of each, most frequent first.
pub fn compute_most_frequent_city_by_sorting(cities: Vec<(String, String)>) -> (r: Vec<(String, usize)>)
    ensures
        is_frequency_table(cities@, r@, false),
{
    let groups = group_by_name(&cities);
    sorted_table(&cities, &groups, false)
}

/// The city names with the number of records of each, most frequent first.
pub fn compute_most_frequent_city_by_map(cities: &Vec<(String, String)>) -> (r: Vec<(String, usize)>)
    ensures
        is_frequency_table(cities@, r@, false),
{
    let groups = group_by_name(cities);
    sorted_table(cities, &groups, false)
}

/// As `compute_most_frequent_city_by_sorting`, restricted to the names of
/// which some record lies in the country `DE`.
pub fn compute_most_frequent_city_by_sorting_in_de(cities: Vec<(String, String)>) -> (r: Vec<(String, usize)>)
    ensures
        is_frequency_table(cities@, r@, true),
{
    let groups = group_by_name(&cities);
    sorted_table(&cities, &groups, true)
}

/// As `compute_most_frequent_city_by_map`, restricted to the names of which
/// some record lies in the country `DE`.
pub fn compute_most_frequent_city_by_map_in_de(cities: &Vec<(String, String)>) -> (r: Vec<(String, usize)>)
    ensures
        is_frequency_table(cities@, r@, true),
{
    let groups = group_by_name(cities);
    sorted_table(cities, &groups, true)
}

/// A place record whose population field is not an integer; `line` counts from 1.
#[derive(Clone, Copy, Debug, PartialEq, Eq, Structural)]
pub struct ParseError {
    pub line: usize,
}

/// One tab-separated place record: the (name, country) pair it contributes,
/// if it has at least 15 fields, its kind (field 6) is `P` and its
/// population (field 14) is positive; an error if that population is no integer.
pub open spec fn record_of(line: Seq<u8>) -> Result<Option<(Seq<u8>, Seq<u8>)>, ()> {
    let p = split_by(line, 9);
    if p.len() < 15 || p[6] != seq![80u8] {
        Ok(None)
    } else {
        match parse_signed(p[14]) {
            None => Err(()),
            Some(v) => if v > 0 { Ok(Some((p[1], p[8]))) } else { Ok(None) },
        }
    }
}

/// The pairs contributed by `lines`, or the number of the first bad line.
pub open spec fn records(lines: Seq<Seq<u8>>) -> Result<Seq<(Seq<u8>, Seq<u8>)>, int>
    decreases lines.len(),
{
    if lines.len() == 0 {
        Ok(Seq::empty())
    } else {
        match records(lines.drop_last()) {
            Err(i) => Err(i),
            Ok(rs) => match record_of(lines.last()) {
                Err(_) => Err(lines.len() as int),
                Ok(None) => Ok(rs),
                Ok(Some(pair)) => Ok(rs.push(pair)),
            },
        }
    }
}

pub open spec fn pairs_view(v: Seq<(Vec<u8>, Vec<u8>)>) -> Seq<(Seq<u8>, Seq<u8>)> {
    v.map_values(|p: (Vec<u8>, Vec<u8>)| (p.0@, p.1@))
}

fn copy_bytes(v: &Vec<u8>) -> (r: Vec<u8>)
    ensures
        r@ == v@,
{
    let mut r: Vec<u8> = Vec::new();
    let mut i: usize = 0;
    while i < v.len()
        invariant
            i <= v.len(),
            r@ =~= v@.take(i as int),
        decreases v.len() - i,
    {
        r.push(v[i]);
        i = i + 1;
    }
    assert(v@.take(v.len() as int) =~= v@);
    r
}

/// Appends to `cities` the (name, country) pair of every populated place
/// among the tab-separated records `lines`.
pub fn read_lines(lines: &Vec<Vec<u8>>, cities: &mut Vec<(Vec<u8>, Vec<u8>)>) -> (r: Result<(), ParseError>)
    ensures
        match records(lines_view(lines@)) {
            Ok(rs) => r is Ok && pairs_view(final(cities)@) == pairs_view(old(cities)@) + rs,
            Err(i) => r == Err::<(), ParseError>(ParseError { line: i as usize }),
        },
{
    let ghost start = pairs_view(cities@);
    let mut i: usize = 0;
    assert(lines_view(lines@).take(0) =~= Seq::<Seq<u8>>::empty());
    assert(start + Seq::<(Seq<u8>, Seq<u8>)>::empty() =~= start);
    while i < lines.len()
        invariant
            i <= lines.len(),
            start == pairs_view(old(cities)@),
            records(lines_view(lines@).take(i as int)) matches Ok(rs) && pairs_view(cities@) == start + rs,
        decreases lines.len() - i,
    {
        let ghost prefix = lines_view(lines@).take(i as int + 1);
        assert(prefix.drop_last() =~= lines_view(lines@).take(i as int));
        assert(prefix.last() == lines@[i as int]@);
        let ghost rs = records(lines_view(lines@).take(i as int))->Ok_0;
        let parts = split_line_by(&lines[i], 9);
        if parts.len() >= 15 {
            proof {
                assert(fields_view(parts@)[6] == parts@[6]@);
                assert(fields_view(parts@)[14] == parts@[14]@);
                assert(fields_view(parts@)[1] == parts@[1]@);
                assert(fields_view(parts@)[8] == parts@[8]@);
            }
            let kind = &parts[6];
            if kind.len() == 1 && kind[0] == 80 {
                assert(parts@[6]@ =~= seq![80u8]);
                match parse_signed_text(&parts[14]) {
                    None => {
                        proof {
                            lemma_records_error_stays(lines_view(lines@), i as int + 1);
                        }
                        return Err(ParseError { line: i + 1 });
                    },
                    Some(v) => {
                        if v > 0 {
                            let name = copy_bytes(&parts[1]);
                            let country = copy_bytes(&parts[8]);
                            let ghost before = cities@;
                            assert(pairs_view(before) == start + rs);
                            cities.push((name, country));
                            assert(pairs_view(cities@) =~= pairs_view(before).push((parts@[1]@, parts@[8]@)));
                            assert((start + rs).push((parts@[1]@, parts@[8]@)) =~= start + rs.push((parts@[1]@, parts@[8]@)));
                        }
                    },
                }
            } else {
                assert(parts@[6]@ != seq![80u8]) by {
                    if kind.len() == 1 {
                        assert(parts@[6]@[0] != seq![80u8][0]);
                    }
                }
            }
        }
        i = i + 1;
    }
    assert(lines_view(lines@).take(lines.len() as int) =~= lines_view(lines@));
    Ok(())
}

/// Once a record is bad, the records of more lines give the same error.
proof fn lemma_records_error_stays(lines: Seq<Seq<u8>>, k: int)
    requires
        0 < k <= lines.len(),
        records(lines.take(k)) == Err::<Seq<(Seq<u8>, Seq<u8>)>, int>(k),
    ensures
        records(lines) == Err::<Seq<(Seq<u8>, Seq<u8>)>, int>(k),
    decreases lines.len() - k,
{
    if k == lines.len() {
        assert(lines.take(k) =~= lines);
    } else {
        lemma_records_error_stays_from(lines, k, k);
    }
}

proof fn lemma_records_error_stays_from(lines: Seq<Seq<u8>>, k: int, e: int)
    requires
        0 < k <= lines.len(),
        records(lines.take(k)) == Err::<Seq<(Seq<u8>, Seq<u8>)>, int>(e),
    ensures
        records(lines) == Err::<Seq<(Seq<u8>, Seq<u8>)>, int>(e),
    decreases lines.len() - k,
{
    if k == lines.len() {
        assert(lines.take(k) =~= lines);
    } else {
        assert(lines.take(k + 1).drop_last() =~= lines.take(k));
        lemma_records_error_stays_from(lines, k + 1, e);
    }
}

} // verus!
