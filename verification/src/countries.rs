use vstd::prelude::*;

verus! {

/// A country as the map file describes it: its name and the colour of its provinces
/// on the source picture.
pub struct CountryEntry {
    pub name: String,
    pub color: [u8; 4],
}

/// Whether two colours are the same.
pub fn same_color(a: &[u8; 4], b: &[u8; 4]) -> (res: bool)
    ensures
        res == (a@ == b@),
{
    let r = a[0] == b[0] && a[1] == b[1] && a[2] == b[2] && a[3] == b[3];
    proof {
        if r {
            assert(a@ =~= b@);
        }
    }
    r
}

/// Some country of `cs` has colour `color`.
pub open spec fn color_among(cs: Seq<CountryEntry>, color: Seq<u8>) -> bool {
    exists|k: int| 0 <= k < cs.len() && #[trigger] cs[k].color@ == color
}

/// Some country kept by `by_color` has colour `color`.
pub open spec fn color_kept(cs: Seq<CountryEntry>, color: Seq<u8>) -> bool {
    exists|k: int|
        0 <= k < by_color(cs, cs.len()).len() && #[trigger] cs[by_color(cs, cs.len())[k]].color@
            == color
}

/// Entry `i` is the last of `cs` with its colour.
pub open spec fn last_of_color(cs: Seq<CountryEntry>, i: int) -> bool {
    forall|j: int| i < j < cs.len() ==> #[trigger] cs[j].color@ != cs[i].color@
}

/// The entries of `cs` that are the last of their colour, in order.
pub open spec fn by_color(cs: Seq<CountryEntry>, k: nat) -> Seq<int>
    decreases k,
{
    if k == 0 {
        Seq::empty()
    } else if last_of_color(cs, k - 1) {
        by_color(cs, (k - 1) as nat).push(k - 1)
    } else {
        by_color(cs, (k - 1) as nat)
    }
}

/// Turns the countries of the map file into one country per colour: where several
/// countries share a colour, the last of them is kept, as when the pairs are
/// collected into a map keyed by colour.
pub fn countries_by_color(countries: &Vec<CountryEntry>) -> (res: Vec<CountryEntry>)
    ensures
        res@.len() == by_color(countries@, countries@.len()).len(),
        forall|i: int|
            0 <= i < res@.len() ==> {
                let src = countries@[by_color(countries@, countries@.len())[i]];
                &&& (#[trigger] res@[i]).name@ == src.name@
                &&& res@[i].color@ == src.color@
            },
        forall|i: int| 0 <= i < countries@.len() ==> #[trigger] color_among(res@, countries@[i].color@),
        forall|k1: int, k2: int|
            0 <= k1 < k2 < res@.len() ==> #[trigger] res@[k1].color@ != #[trigger] res@[k2].color@,
{
    let n = countries.len();
    let mut res: Vec<CountryEntry> = Vec::new();
    let mut i: usize = 0;
    while i < n
        invariant
            n == countries@.len(),
            i <= n,
            res@.len() == by_color(countries@, i as nat).len(),
            forall|k: int|
                0 <= k < res@.len() ==> {
                    let src = countries@[by_color(countries@, i as nat)[k]];
                    &&& (#[trigger] res@[k]).name@ == src.name@
                    &&& res@[k].color@ == src.color@
                },
        decreases n - i,
    {
        let mut last = true;
        let mut j: usize = i + 1;
        while j < n
            invariant
                n == countries@.len(),
                i < j <= n,
                last == forall|jj: int| i < jj < j ==> #[trigger] countries@[jj].color@ != countries@[i as int].color@,
            decreases n - j,
        {
            if same_color(&countries[j].color, &countries[i].color) {
                last = false;
            }
            j += 1;
        }
        if last {
            let entry = CountryEntry { name: countries[i].name.clone(), color: countries[i].color };
            res.push(entry);
        }
        i += 1;
    }
    proof {
        lemma_by_color_laws(countries@);
        let b = by_color(countries@, countries@.len());
        assert forall|i: int| 0 <= i < countries@.len() implies #[trigger] color_among(
            res@,
            countries@[i].color@,
        ) by {
            assert(color_kept(countries@, countries@[i].color@));
            let k = choose|k: int|
                0 <= k < b.len() && #[trigger] countries@[b[k]].color@ == countries@[i].color@;
            assert(res@[k].color@ == countries@[b[k]].color@);
        }
        assert forall|k1: int, k2: int| 0 <= k1 < k2 < res@.len() implies #[trigger] res@[k1].color@
            != #[trigger] res@[k2].color@ by {
            assert(res@[k1].color@ == countries@[b[k1]].color@);
            assert(res@[k2].color@ == countries@[b[k2]].color@);
        }
    }
    res
}

/// What keeping the last country of each colour means, for the countries `cs`: the
/// kept entries come in their order in `cs`; each is followed by no entry of the same
/// (whole RGBA) colour; every colour of `cs` is kept; so no two kept entries share a
/// colour.
pub proof fn lemma_by_color_laws(cs: Seq<CountryEntry>)
    ensures
        forall|k: int|
            0 <= k < by_color(cs, cs.len()).len() ==> 0 <= #[trigger] by_color(cs, cs.len())[k]
                < cs.len(),
        forall|k1: int, k2: int|
            0 <= k1 < k2 < by_color(cs, cs.len()).len() ==> #[trigger] by_color(cs, cs.len())[k1]
                < #[trigger] by_color(cs, cs.len())[k2],
        forall|k: int, j: int|
            0 <= k < by_color(cs, cs.len()).len() && by_color(cs, cs.len())[k] < j < cs.len()
                ==> #[trigger] cs[j].color@ != #[trigger] cs[by_color(cs, cs.len())[k]].color@,
        forall|i: int| 0 <= i < cs.len() ==> #[trigger] color_kept(cs, cs[i].color@),
        forall|k1: int, k2: int|
            0 <= k1 < k2 < by_color(cs, cs.len()).len() ==> #[trigger] cs[by_color(
                cs,
                cs.len(),
            )[k1]].color@ != #[trigger] cs[by_color(cs, cs.len())[k2]].color@,
{
    let b = by_color(cs, cs.len());
    lemma_by_color_prefix(cs, cs.len());
    assert forall|k: int, j: int|
        0 <= k < b.len() && b[k] < j < cs.len() implies #[trigger] cs[j].color@ != #[trigger] cs[b[k]].color@ by {
        assert(last_of_color(cs, b[k]));
    }
    assert forall|i: int| 0 <= i < cs.len() implies #[trigger] color_kept(cs, cs[i].color@) by {
        lemma_last_of_same_color(cs, i);
        let j = choose|j: int| i <= j < cs.len() && cs[j].color@ == cs[i].color@ && last_of_color(cs, j);
        assert(by_color(cs, cs.len()).contains(j));
        let k = choose|k: int| 0 <= k < by_color(cs, cs.len()).len() && by_color(cs, cs.len())[k] == j;
        assert(cs[by_color(cs, cs.len())[k]].color@ == cs[i].color@);
    }
    assert forall|k1: int, k2: int| 0 <= k1 < k2 < b.len() implies #[trigger] cs[b[k1]].color@
        != #[trigger] cs[b[k2]].color@ by {
        assert(b[k1] < b[k2]);
        assert(last_of_color(cs, b[k1]));
        assert(cs[b[k2]].color@ != cs[b[k1]].color@);
    }
}

/// Countries of pairwise different colours are all kept, in their order.
pub proof fn lemma_distinct_colors_all_kept(cs: Seq<CountryEntry>)
    requires
        forall|i: int, j: int| 0 <= i < j < cs.len() ==> #[trigger] cs[i].color@ != #[trigger] cs[j].color@,
    ensures
        by_color(cs, cs.len()) == Seq::new(cs.len(), |i: int| i),
{
    lemma_distinct_prefix(cs, cs.len());
}

proof fn lemma_distinct_prefix(cs: Seq<CountryEntry>, k: nat)
    requires
        k <= cs.len(),
        forall|i: int, j: int| 0 <= i < j < cs.len() ==> #[trigger] cs[i].color@ != #[trigger] cs[j].color@,
    ensures
        by_color(cs, k) == Seq::new(k, |i: int| i),
    decreases k,
{
    if k > 0 {
        lemma_distinct_prefix(cs, (k - 1) as nat);
        assert(last_of_color(cs, k - 1)) by {
            assert forall|j: int| k - 1 < j < cs.len() implies #[trigger] cs[j].color@ != cs[k - 1].color@ by {
                assert(cs[k - 1].color@ != cs[j].color@);
            }
        }
        assert(by_color(cs, k) =~= Seq::new(k, |i: int| i));
    }
}

/// The entries kept from the first `k` countries are the indices below `k` that are
/// the last of their colour, in increasing order.
proof fn lemma_by_color_prefix(cs: Seq<CountryEntry>, k: nat)
    requires
        k <= cs.len(),
    ensures
        forall|m: int| 0 <= m < by_color(cs, k).len() ==> 0 <= #[trigger] by_color(cs, k)[m] < k
            && last_of_color(cs, by_color(cs, k)[m]),
        forall|m1: int, m2: int|
            0 <= m1 < m2 < by_color(cs, k).len() ==> #[trigger] by_color(cs, k)[m1] < #[trigger] by_color(cs, k)[m2],
        forall|j: int| 0 <= j < k && last_of_color(cs, j) ==> #[trigger] by_color(cs, k).contains(j),
    decreases k,
{
    if k > 0 {
        lemma_by_color_prefix(cs, (k - 1) as nat);
        let prev = by_color(cs, (k - 1) as nat);
        let cur = by_color(cs, k);
        if last_of_color(cs, k - 1) {
            assert(cur[prev.len() as int] == k - 1);
            assert forall|j: int| 0 <= j < k && last_of_color(cs, j) implies #[trigger] cur.contains(j) by {
                if j < k - 1 {
                    assert(prev.contains(j));
                    let m = choose|m: int| 0 <= m < prev.len() && prev[m] == j;
                    assert(cur[m] == j);
                }
            }
            assert forall|m1: int, m2: int| 0 <= m1 < m2 < cur.len() implies #[trigger] cur[m1] < #[trigger] cur[m2] by {
                if m2 < prev.len() {
                    assert(cur[m1] == prev[m1]);
                    assert(cur[m2] == prev[m2]);
                } else {
                    assert(cur[m1] == prev[m1]);
                }
            }
            assert forall|m: int| 0 <= m < cur.len() implies 0 <= #[trigger] cur[m] < k && last_of_color(cs, cur[m]) by {
                if m < prev.len() {
                    assert(cur[m] == prev[m]);
                }
            }
        } else {
            assert forall|j: int| 0 <= j < k && last_of_color(cs, j) implies #[trigger] cur.contains(j) by {
                assert(j != k - 1);
            }
        }
    }
}

/// Every country is followed, at itself or later, by a country of the same colour that
/// is the last of that colour.
proof fn lemma_last_of_same_color(cs: Seq<CountryEntry>, i: int)
    requires
        0 <= i < cs.len(),
    ensures
        exists|j: int| i <= j < cs.len() && cs[j].color@ == cs[i].color@ && last_of_color(cs, j),
    decreases cs.len() - i,
{
    if !last_of_color(cs, i) {
        let j = choose|j: int| i < j < cs.len() && cs[j].color@ == cs[i].color@;
        lemma_last_of_same_color(cs, j);
    }
}

/// Some country has colour `color`.
pub open spec fn has_color(countries: Seq<CountryEntry>, color: Seq<u8>) -> bool {
    exists|j: int| 0 <= j < countries.len() && countries[j].color@ == color
}

/// The first country with colour `color`.
fn first_with_color(countries: &Vec<CountryEntry>, color: &[u8; 4]) -> (res: Option<usize>)
    ensures
        match res {
            Some(c) => c < countries@.len() && countries@[c as int].color@ == color@ && forall|j: int|
                0 <= j < c ==> countries@[j].color@ != color@,
            None => forall|j: int| 0 <= j < countries@.len() ==> countries@[j].color@ != color@,
        },
{
    let mut j: usize = 0;
    while j < countries.len()
        invariant
            j <= countries@.len(),
            forall|jj: int| 0 <= jj < j ==> countries@[jj].color@ != color@,
        decreases countries@.len() - j,
    {
        if same_color(&countries[j].color, color) {
            return Some(j);
        }
        j += 1;
    }
    None
}

/// For each hexagon colour, the first country with that colour; or the first hexagon
/// whose colour belongs to no country.
pub fn province_owners(hexagon_colors: &Vec<[u8; 4]>, countries: &Vec<CountryEntry>) -> (res: Result<
    Vec<usize>,
    usize,
>)
    ensures
        match res {
            Ok(owners) => {
                &&& owners@.len() == hexagon_colors@.len()
                &&& forall|i: int|
                    0 <= i < owners@.len() ==> {
                        &&& (#[trigger] owners@[i]) < countries@.len()
                        &&& countries@[owners@[i] as int].color@ == hexagon_colors@[i]@
                        &&& forall|j: int|
                            0 <= j < owners@[i] ==> countries@[j].color@ != hexagon_colors@[i]@
                    }
            },
            Err(i) => {
                &&& i < hexagon_colors@.len()
                &&& forall|j: int| 0 <= j < countries@.len() ==> countries@[j].color@ != hexagon_colors@[i as int]@
                &&& forall|k: int|
                    0 <= k < i ==> has_color(countries@, #[trigger] hexagon_colors@[k]@)
            },
        },
{
    let mut owners: Vec<usize> = Vec::new();
    let mut i: usize = 0;
    while i < hexagon_colors.len()
        invariant
            i <= hexagon_colors@.len(),
            owners@.len() == i,
            forall|k: int|
                0 <= k < i ==> {
                    &&& (#[trigger] owners@[k]) < countries@.len()
                    &&& countries@[owners@[k] as int].color@ == hexagon_colors@[k]@
                    &&& forall|j: int|
                        0 <= j < owners@[k] ==> countries@[j].color@ != hexagon_colors@[k]@
                },
        decreases hexagon_colors@.len() - i,
    {
        let found = first_with_color(countries, &hexagon_colors[i]);
        match found {
            Some(c) => {
                owners.push(c);
            },
            None => {
                proof {
                    assert forall|k: int| 0 <= k < i implies has_color(countries@, #[trigger] hexagon_colors@[k]@) by {
                        assert(countries@[owners@[k] as int].color@ == hexagon_colors@[k]@);
                    }
                    assert(i < hexagon_colors@.len());
                    assert(forall|j: int| 0 <= j < countries@.len() ==> countries@[j].color@ != hexagon_colors@[i as int]@);
                }
                return Err(i);
            },
        }
        i += 1;
    }
    Ok(owners)
}

/// The first country called `name`.
pub fn find_country(countries: &Vec<CountryEntry>, name: &String) -> (res: Option<usize>)
    ensures
        match res {
            Some(i) => i < countries@.len() && countries@[i as int].name@ == name@ && forall|j: int|
                0 <= j < i ==> countries@[j].name@ != name@,
            None => forall|j: int| 0 <= j < countries@.len() ==> countries@[j].name@ != name@,
        },
{
    let mut i: usize = 0;
    while i < countries.len()
        invariant
            i <= countries@.len(),
            forall|j: int| 0 <= j < i ==> countries@[j].name@ != name@,
        decreases countries@.len() - i,
    {
        if countries[i].name == *name {
            return Some(i);
        }
        i += 1;
    }
    None
}

} // verus!
