use crate::types::{
    components, lemma_order_from_flip, lemma_order_from_refl, version_order, version_wf,
    Constraints, MCVersion, Mod, ModAndReleases, ModRelease,
};
use itertools::Itertools;
use vstd::prelude::*;

verus! {

/// The loader and exact-release constraints, where set, hold of `r`.
pub open spec fn passes_loader_and_exact(r: ModRelease, c: Constraints) -> bool {
    &&& (c.loader is Some ==> exists|k: int|
        0 <= k < r.loaders@.len() && (#[trigger] r.loaders@[k])@ == c.loader->0@)
    &&& (c.exact_mc_version is Some ==> r.release@ == c.exact_mc_version->0@)
}

/// Every constraint that is set holds of `r`.
pub open spec fn release_matches(r: ModRelease, c: Constraints) -> bool {
    &&& passes_loader_and_exact(r, c)
    &&& (c.min_mc_version is Some ==> version_order(r.release@, c.min_mc_version->0@)
        != std::cmp::Ordering::Less)
}

/// The release labels that the minimum-version constraint compares are versions.
pub open spec fn min_comparable(r: ModRelease, c: Constraints) -> bool {
    c.min_mc_version is Some ==> {
        &&& version_wf(c.min_mc_version->0@)
        &&& (passes_loader_and_exact(r, c) ==> version_wf(r.release@))
    }
}

/// Release `r` lists version `v` among those it supports.
pub open spec fn supports(r: ModRelease, v: Seq<char>) -> bool {
    exists|k: int| 0 <= k < r.mc_versions@.len() && (#[trigger] r.mc_versions@[k])@ == v
}

pub open spec fn release_at(mods: Seq<ModAndReleases>, i: int, j: int) -> ModRelease {
    mods[i].releases@[j]
}

pub open spec fn valid_pair(mods: Seq<ModAndReleases>, p: (usize, usize)) -> bool {
    &&& p.0 < mods.len()
    &&& p.1 < mods[p.0 as int].releases@.len()
}

pub open spec fn same_mod(a: Mod, b: Mod) -> bool {
    a.name@ == b.name@ && a.mod_type == b.mod_type
}

/// No mod occurs twice in the list.
pub open spec fn mods_distinct(mods: Seq<ModAndReleases>) -> bool {
    forall|i: int, j: int|
        0 <= i < j < mods.len() ==> !same_mod(#[trigger] mods[i].mod_item, #[trigger] mods[j].mod_item)
}

/// Some release of some mod that meets the constraints supports `v`.
pub open spec fn is_candidate(mods: Seq<ModAndReleases>, c: Constraints, v: Seq<char>) -> bool {
    exists|i: int, j: int|
        0 <= i < mods.len() && 0 <= j < mods[i].releases@.len() && release_matches(
            #[trigger] release_at(mods, i, j),
            c,
        ) && supports(release_at(mods, i, j), v)
}

/// Mod `i` has a release that meets the constraints and supports `v`.
pub open spec fn mod_supports(mods: Seq<ModAndReleases>, c: Constraints, i: int, v: Seq<char>) -> bool {
    exists|j: int|
        0 <= j < mods[i].releases@.len() && release_matches(#[trigger] release_at(mods, i, j), c)
            && supports(release_at(mods, i, j), v)
}

/// The number of distinct mods with a matching release that supports `v` equals
/// the number of mods: the mods are distinct and each one supports `v`.
pub open spec fn supported_by_all(mods: Seq<ModAndReleases>, c: Constraints, v: Seq<char>) -> bool {
    &&& mods_distinct(mods)
    &&& forall|i: int| 0 <= i < mods.len() ==> #[trigger] mod_supports(mods, c, i, v)
}

/// Each version of `r` that the search may compare is well formed.
pub open spec fn release_comparable(r: ModRelease, c: Constraints) -> bool {
    &&& min_comparable(r, c)
    &&& (release_matches(r, c) ==> forall|k: int|
        0 <= k < r.mc_versions@.len() ==> version_wf((#[trigger] r.mc_versions@[k])@))
}

/// What the search asks of its input: each version it may compare is well formed.
pub open spec fn comparable_input(mods: Seq<ModAndReleases>, c: Constraints) -> bool {
    forall|i: int, j: int|
        0 <= i < mods.len() && 0 <= j < mods[i].releases@.len() ==> release_comparable(
            #[trigger] release_at(mods, i, j),
            c,
        )
}

fn contains_string(v: &Vec<String>, x: &String) -> (r: bool)
    ensures
        r == exists|k: int| 0 <= k < v@.len() && (#[trigger] v@[k])@ == x@,
{
    let mut i: usize = 0;
    while i < v.len()
        invariant
            i <= v.len(),
            forall|k: int| 0 <= k < i ==> (#[trigger] v@[k])@ != x@,
        decreases v.len() - i,
    {
        if v[i] == *x {
            return true;
        }
        i = i + 1;
    }
    false
}

impl ModRelease {
    /// Whether the loader and exact-release constraints, where set, hold.
    pub fn meets_loader_and_exact(&self, c: &Constraints) -> (r: bool)
        ensures
            r == passes_loader_and_exact(*self, *c),
    {
        if let Some(loader) = &c.loader {
            if !contains_string(&self.loaders, loader) {
                return false;
            }
        }
        if let Some(exact_version) = &c.exact_mc_version {
            if self.release != *exact_version {
                return false;
            }
        }
        true
    }

    /// Whether every version of this release that a search may compare is well formed.
    pub fn is_comparable(&self, c: &Constraints) -> (r: bool)
        ensures
            r == release_comparable(*self, *c),
    {
        if let Some(min_version) = &c.min_mc_version {
            if !MCVersion::new(min_version.as_str()).is_well_formed() {
                return false;
            }
            if self.meets_loader_and_exact(c) && !MCVersion::new(self.release.as_str()).is_well_formed() {
                return false;
            }
        }
        if self.match_constraints(c) {
            let mut k: usize = 0;
            while k < self.mc_versions.len()
                invariant
                    release_matches(*self, *c),
                    k <= self.mc_versions.len(),
                    forall|q: int| 0 <= q < k ==> version_wf((#[trigger] self.mc_versions@[q])@),
                decreases self.mc_versions.len() - k,
            {
                if !self.mc_versions[k].is_well_formed() {
                    assert(!version_wf((self.mc_versions@[k as int])@));
                    return false;
                }
                k = k + 1;
            }
        }
        true
    }

    /// Check if this release matches the given constraints
    pub fn match_constraints(&self, c: &Constraints) -> (r: bool)
        requires
            min_comparable(*self, *c),
        ensures
            r == release_matches(*self, *c),
    {
        if !self.meets_loader_and_exact(c) {
            return false;
        }
        if let Some(min_version) = &c.min_mc_version {
            let min_version = MCVersion::new(min_version.as_str());
            let version = MCVersion::new(self.release.as_str());
            if let std::cmp::Ordering::Less = version.compare(&min_version) {
                return false;
            }
        }
        true
    }

    /// Whether this release lists `v` among its supported versions.
    pub fn supports_version(&self, v: &MCVersion) -> (r: bool)
        ensures
            r == supports(*self, v@),
    {
        let mut i: usize = 0;
        while i < self.mc_versions.len()
            invariant
                i <= self.mc_versions.len(),
                forall|k: int| 0 <= k < i ==> (#[trigger] self.mc_versions@[k])@ != v@,
            decreases self.mc_versions.len() - i,
        {
            if self.mc_versions[i].str == v.str {
                return true;
            }
            i = i + 1;
        }
        false
    }
}

/// The pair `(i, j)` stands in `ps`.
pub open spec fn pair_listed(ps: Seq<(usize, usize)>, i: int, j: int) -> bool {
    exists|k: int| 0 <= k < ps.len() && #[trigger] ps[k] == (i as usize, j as usize)
}

/// The pairs `(i, 0)`, ..., `(i, n - 1)`.
pub open spec fn release_row(i: int, n: nat) -> Seq<(usize, usize)> {
    Seq::new(n, |j: int| (i as usize, j as usize))
}

/// Every (mod, release) index pair, mod by mod and release by release.
pub open spec fn flat_pairs(mods: Seq<ModAndReleases>) -> Seq<(usize, usize)>
    decreases mods.len(),
{
    if mods.len() == 0 {
        Seq::empty()
    } else {
        flat_pairs(mods.drop_last()) + release_row(mods.len() - 1, mods.last().releases@.len())
    }
}

/// The pairs of `ps` whose release meets the constraints, in order.
pub open spec fn keep_matching(
    mods: Seq<ModAndReleases>,
    c: Constraints,
    ps: Seq<(usize, usize)>,
) -> Seq<(usize, usize)>
    decreases ps.len(),
{
    if ps.len() == 0 {
        ps
    } else {
        let kept = keep_matching(mods, c, ps.drop_last());
        if release_matches(pair_release(mods, ps.last()), c) {
            kept.push(ps.last())
        } else {
            kept
        }
    }
}

/// The supported versions of the releases that `ps` names, one release after another.
pub open spec fn versions_of(mods: Seq<ModAndReleases>, ps: Seq<(usize, usize)>) -> Seq<Seq<char>>
    decreases ps.len(),
{
    if ps.len() == 0 {
        Seq::empty()
    } else {
        versions_of(mods, ps.drop_last()) + version_views(pair_release(mods, ps.last()).mc_versions@)
    }
}

/// The distinct versions of the matching releases, each where it first occurs.
pub open spec fn candidate_order(mods: Seq<ModAndReleases>, c: Constraints) -> Seq<Seq<char>> {
    first_occurrences(versions_of(mods, keep_matching(mods, c, flat_pairs(mods))))
}

/// Flattens a list of mods and their releases into (mod, release) index pairs
fn get_flat_releases(mods: &Vec<ModAndReleases>) -> (r: Vec<(usize, usize)>)
    ensures
        r@ == flat_pairs(mods@),
        forall|k: int| 0 <= k < r@.len() ==> valid_pair(mods@, #[trigger] r@[k]),
        forall|i: int, j: int|
            0 <= i < mods@.len() && 0 <= j < mods@[i].releases@.len() ==> #[trigger] pair_listed(
                r@,
                i,
                j,
            ),
{
    let mut r: Vec<(usize, usize)> = Vec::new();
    let mut i: usize = 0;
    assert(mods@.take(0) =~= Seq::<ModAndReleases>::empty());
    while i < mods.len()
        invariant
            i <= mods.len(),
            r@ == flat_pairs(mods@.take(i as int)),
            forall|k: int| 0 <= k < r@.len() ==> valid_pair(mods@, #[trigger] r@[k]),
            forall|a: int, b: int|
                0 <= a < i && 0 <= b < mods@[a].releases@.len() ==> #[trigger] pair_listed(
                    r@,
                    a,
                    b,
                ),
        decreases mods.len() - i,
    {
        let mut j: usize = 0;
        while j < mods[i].releases.len()
            invariant
                i < mods.len(),
                j <= mods@[i as int].releases@.len(),
                r@ == flat_pairs(mods@.take(i as int)) + release_row(i as int, j as nat),
                forall|k: int| 0 <= k < r@.len() ==> valid_pair(mods@, #[trigger] r@[k]),
                forall|a: int, b: int|
                    (0 <= a < i && 0 <= b < mods@[a].releases@.len()) || (a == i && 0 <= b < j)
                        ==> #[trigger] pair_listed(r@, a, b),
            decreases mods@[i as int].releases@.len() - j,
        {
            let ghost old_r = r@;
            r.push((i, j));
            assert(release_row(i as int, (j + 1) as nat) =~= release_row(i as int, j as nat).push((i, j)));
            assert forall|a: int, b: int|
                (0 <= a < i && 0 <= b < mods@[a].releases@.len()) || (a == i && 0 <= b < j + 1)
                    implies #[trigger] pair_listed(r@, a, b) by {
                if a == i && b == j {
                    assert(r@[old_r.len() as int] == (a as usize, b as usize));
                } else {
                    assert(pair_listed(old_r, a, b));
                    let k = choose|k: int|
                        0 <= k < old_r.len() && #[trigger] old_r[k] == (a as usize, b as usize);
                    assert(r@[k] == old_r[k]);
                }
            }
            j = j + 1;
        }
        assert(mods@.take(i + 1).drop_last() =~= mods@.take(i as int));
        assert(mods@.take(i + 1).last() == mods@[i as int]);
        i = i + 1;
    }
    assert(mods@.take(i as int) =~= mods@);
    r
}

pub open spec fn version_views(v: Seq<MCVersion>) -> Seq<Seq<char>> {
    v.map_values(|x: MCVersion| x@)
}

/// The distinct items of `s`, each where it first occurs.
pub open spec fn first_occurrences(s: Seq<Seq<char>>) -> Seq<Seq<char>>
    decreases s.len(),
{
    if s.len() == 0 {
        s
    } else {
        let d = first_occurrences(s.drop_last());
        if d.contains(s.last()) {
            d
        } else {
            d.push(s.last())
        }
    }
}

proof fn lemma_first_occurrences_contains(s: Seq<Seq<char>>, x: Seq<char>)
    ensures
        first_occurrences(s).contains(x) <==> s.contains(x),
    decreases s.len(),
{
    if s.len() > 0 {
        let d = first_occurrences(s.drop_last());
        lemma_first_occurrences_contains(s.drop_last(), x);
        if s.drop_last().contains(x) {
            let k = choose|k: int| 0 <= k < s.drop_last().len() && s.drop_last()[k] == x;
            assert(s[k] == x);
        }
        if s.contains(x) && x != s.last() {
            let k = choose|k: int| 0 <= k < s.len() && s[k] == x;
            assert(s.drop_last()[k] == x);
        }
        if !d.contains(s.last()) {
            assert(d.push(s.last())[d.len() as int] == s.last());
            if d.contains(x) {
                let k = choose|k: int| 0 <= k < d.len() && d[k] == x;
                assert(d.push(s.last())[k] == x);
            }
        }
        assert(s[s.len() - 1] == s.last());
    }
}

proof fn lemma_first_occurrences_distinct(s: Seq<Seq<char>>)
    ensures
        first_occurrences(s).no_duplicates(),
    decreases s.len(),
{
    if s.len() > 0 {
        lemma_first_occurrences_distinct(s.drop_last());
        let d = first_occurrences(s.drop_last());
        if !d.contains(s.last()) {
            assert forall|a: int, b: int|
                0 <= a < d.len() + 1 && 0 <= b < d.len() + 1 && a != b implies d.push(s.last())[a]
                != d.push(s.last())[b] by {
                if a == d.len() {
                    assert(d[b] != s.last());
                } else if b == d.len() {
                    assert(d[a] != s.last());
                }
            }
        }
    }
}

/// Relies on itertools::Itertools::unique: drops every version equal to an earlier
/// one and keeps the rest in order; equality and hash both read the version text.
#[verifier::external_body]
fn unique_versions(v: Vec<MCVersion>) -> (r: Vec<MCVersion>)
    ensures
        version_views(r@) == first_occurrences(version_views(v@)),
{
    v.into_iter().unique().collect()
}

/// Relies on itertools::Itertools::sorted_by: a stable sort of the versions by
/// `MCVersion::compare`, which is a total order on well-formed versions.
#[verifier::external_body]
fn sort_versions(v: Vec<MCVersion>) -> (r: Vec<MCVersion>)
    requires
        forall|k: int| 0 <= k < v@.len() ==> version_wf((#[trigger] v@[k])@),
        version_views(v@).no_duplicates(),
    ensures
        forall|a: int, b: int|
            0 <= a < b < r@.len() && version_order((#[trigger] r@[a])@, (#[trigger] r@[b])@)
                == std::cmp::Ordering::Equal ==> version_views(v@).index_of(r@[a]@) < version_views(
                v@,
            ).index_of(r@[b]@),
        version_views(r@).to_multiset() == version_views(v@).to_multiset(),
        forall|a: int, b: int|
            0 <= a < b < r@.len() ==> version_order((#[trigger] r@[a])@, (#[trigger] r@[b])@)
                != std::cmp::Ordering::Greater,
{
    v.into_iter().sorted_by(|a, b| a.compare(b)).collect()
}

pub open spec fn pair_release(mods: Seq<ModAndReleases>, p: (usize, usize)) -> ModRelease {
    mods[p.0 as int].releases@[p.1 as int]
}

/// Some release named by a pair of `ps` supports `x`.
pub open spec fn listed_version(
    mods: Seq<ModAndReleases>,
    ps: Seq<(usize, usize)>,
    x: Seq<char>,
) -> bool {
    exists|m: int| 0 <= m < ps.len() && supports(#[trigger] pair_release(mods, ps[m]), x)
}

/// Extracts all unique MC versions from a list of releases, in ascending order
fn extract_sorted_unique_mc_versions(
    mods: &Vec<ModAndReleases>,
    releases: &Vec<(usize, usize)>,
) -> (r: Vec<MCVersion>)
    requires
        forall|m: int|
            0 <= m < releases@.len() ==> valid_pair(mods@, #[trigger] releases@[m]),
        forall|m: int, k: int|
            0 <= m < releases@.len() && 0 <= k < pair_release(mods@, releases@[m]).mc_versions@.len()
                ==> version_wf((#[trigger] pair_release(mods@, releases@[m]).mc_versions@[k])@),
    ensures
        forall|k: int| 0 <= k < r@.len() ==> version_wf((#[trigger] r@[k])@),
        forall|x: Seq<char>|
            #[trigger] version_views(r@).contains(x) <==> listed_version(mods@, releases@, x),
        forall|a: int, b: int|
            0 <= a < b < r@.len() ==> version_order((#[trigger] r@[a])@, (#[trigger] r@[b])@)
                != std::cmp::Ordering::Greater,
        forall|a: int, b: int|
            0 <= a < b < r@.len() && version_order((#[trigger] r@[a])@, (#[trigger] r@[b])@)
                == std::cmp::Ordering::Equal ==> first_occurrences(
                versions_of(mods@, releases@),
            ).index_of(r@[a]@) < first_occurrences(versions_of(mods@, releases@)).index_of(r@[b]@),
{
    let mut all: Vec<MCVersion> = Vec::new();
    let mut m: usize = 0;
    while m < releases.len()
        invariant
            m <= releases.len(),
            forall|q: int|
                0 <= q < releases@.len() ==> valid_pair(mods@, #[trigger] releases@[q]),
            forall|q: int, k: int|
                0 <= q < releases@.len() && 0 <= k < pair_release(mods@, releases@[q]).mc_versions@.len()
                    ==> version_wf((#[trigger] pair_release(mods@, releases@[q]).mc_versions@[k])@),
            forall|k: int| 0 <= k < all@.len() ==> version_wf((#[trigger] all@[k])@),
            version_views(all@) == versions_of(mods@, releases@.take(m as int)),
            forall|x: Seq<char>|
                #[trigger] version_views(all@).contains(x) <==> listed_version(
                    mods@,
                    releases@.take(m as int),
                    x,
                ),
        decreases releases.len() - m,
    {
        let (i, j) = releases[m];
        let rel = &mods[i].releases[j];
        assert(pair_release(mods@, releases@[m as int]) == *rel);
        let mut t: usize = 0;
        while t < rel.mc_versions.len()
            invariant
                m < releases.len(),
                forall|q: int|
                    0 <= q < releases@.len() ==> valid_pair(mods@, #[trigger] releases@[q]),
                forall|q: int, k: int|
                    0 <= q < releases@.len() && 0 <= k < pair_release(mods@, releases@[q]).mc_versions@.len()
                        ==> version_wf((#[trigger] pair_release(mods@, releases@[q]).mc_versions@[k])@),
                *rel == pair_release(mods@, releases@[m as int]),
                t <= rel.mc_versions@.len(),
                version_views(all@) == versions_of(mods@, releases@.take(m as int)) + version_views(
                    rel.mc_versions@,
                ).take(t as int),
                forall|k: int| 0 <= k < all@.len() ==> version_wf((#[trigger] all@[k])@),
                forall|x: Seq<char>|
                    #[trigger] version_views(all@).contains(x) <==> (listed_version(
                        mods@,
                        releases@.take(m as int),
                        x,
                    ) || exists|u: int| 0 <= u < t && (#[trigger] rel.mc_versions@[u])@ == x),
            decreases rel.mc_versions.len() - t,
        {
            let v = MCVersion::new(rel.mc_versions[t].str.as_str());
            assert(version_wf(pair_release(mods@, releases@[m as int]).mc_versions@[t as int]@));
            let ghost old_all = all@;
            all.push(v);
            assert(version_views(all@) =~= version_views(old_all).push(v@));
            assert(version_views(rel.mc_versions@).take(t + 1) =~= version_views(rel.mc_versions@).take(
                t as int,
            ).push(v@));
            assert forall|x: Seq<char>|
                #[trigger] version_views(all@).contains(x) <==> (listed_version(
                    mods@,
                    releases@.take(m as int),
                    x,
                ) || exists|u: int| 0 <= u < t + 1 && (#[trigger] rel.mc_versions@[u])@ == x) by {
                assert(version_views(all@)[old_all.len() as int] == v@);
                if version_views(old_all).contains(x) {
                    let k = choose|k: int| 0 <= k < old_all.len() && version_views(old_all)[k] == x;
                    assert(version_views(all@)[k] == x);
                }
                if version_views(all@).contains(x) && x != v@ {
                    let k = choose|k: int| 0 <= k < all@.len() && version_views(all@)[k] == x;
                    assert(version_views(old_all)[k] == x);
                }
                if exists|u: int| 0 <= u < t + 1 && (#[trigger] rel.mc_versions@[u])@ == x {
                    let u = choose|u: int| 0 <= u < t + 1 && (#[trigger] rel.mc_versions@[u])@ == x;
                    if u == t {
                        assert(version_views(all@).contains(x));
                    }
                }
            }
            t = t + 1;
        }
        assert(releases@.take(m + 1).drop_last() =~= releases@.take(m as int));
        assert(releases@.take(m + 1).last() == releases@[m as int]);
        assert(version_views(rel.mc_versions@).take(rel.mc_versions@.len() as int) =~= version_views(
            rel.mc_versions@,
        ));
        assert forall|x: Seq<char>|
            #[trigger] version_views(all@).contains(x) <==> listed_version(
                mods@,
                releases@.take(m + 1),
                x,
            ) by {
            let ps = releases@.take(m + 1);
            assert(ps[m as int] == releases@[m as int]);
            if listed_version(mods@, releases@.take(m as int), x) {
                let q = choose|q: int|
                    0 <= q < m && supports(
                        #[trigger] pair_release(mods@, releases@.take(m as int)[q]),
                        x,
                    );
                assert(ps[q] == releases@.take(m as int)[q]);
            }
            if listed_version(mods@, ps, x) {
                let q = choose|q: int| 0 <= q < m + 1 && supports(#[trigger] pair_release(mods@, ps[q]), x);
                if q < m {
                    assert(releases@.take(m as int)[q] == ps[q]);
                } else {
                    assert(supports(*rel, x));
                }
            }
            if supports(*rel, x) {
                assert(supports(pair_release(mods@, ps[m as int]), x));
            }
        }
        m = m + 1;
    }
    assert(releases@.take(m as int) =~= releases@);
    let ghost views_all = version_views(all@);
    let unique = unique_versions(all);
    assert forall|k: int| 0 <= k < unique@.len() implies version_wf((#[trigger] unique@[k])@) by {
        let x = unique@[k]@;
        assert(version_views(unique@)[k] == x);
        lemma_first_occurrences_contains(views_all, x);
        let q = choose|q: int| 0 <= q < views_all.len() && views_all[q] == x;
        assert(all@[q]@ == x);
    }
    proof {
        lemma_first_occurrences_distinct(views_all);
    }
    let sorted = sort_versions(unique);
    proof {
        broadcast use vstd::seq_lib::to_multiset_contains;
        assert forall|x: Seq<char>|
            #[trigger] version_views(sorted@).contains(x) <==> listed_version(mods@, releases@, x) by {
            lemma_first_occurrences_contains(views_all, x);
            assert(version_views(sorted@).to_multiset().count(x) == version_views(unique@).to_multiset().count(x));
        }
        assert forall|k: int| 0 <= k < sorted@.len() implies version_wf((#[trigger] sorted@[k])@) by {
            let x = sorted@[k]@;
            assert(version_views(sorted@)[k] == x);
            assert(version_views(sorted@).contains(x));
            assert(version_views(sorted@).to_multiset().count(x) == version_views(unique@).to_multiset().count(x));
            let q = choose|q: int| 0 <= q < unique@.len() && version_views(unique@)[q] == x;
            assert(unique@[q]@ == x);
        }
    }
    sorted
}

fn mods_are_distinct(mods: &Vec<ModAndReleases>) -> (r: bool)
    ensures
        r == mods_distinct(mods@),
{
    let mut i: usize = 0;
    while i < mods.len()
        invariant
            i <= mods.len(),
            forall|a: int, b: int|
                0 <= a < b < mods@.len() && a < i ==> !same_mod(
                    #[trigger] mods@[a].mod_item,
                    #[trigger] mods@[b].mod_item,
                ),
        decreases mods.len() - i,
    {
        let mut j: usize = i + 1;
        while j < mods.len()
            invariant
                i < mods.len(),
                i + 1 <= j <= mods.len(),
                forall|a: int, b: int|
                    0 <= a < b < mods@.len() && (a < i || (a == i && b < j)) ==> !same_mod(
                        #[trigger] mods@[a].mod_item,
                        #[trigger] mods@[b].mod_item,
                    ),
            decreases mods.len() - j,
        {
            if mods[i].mod_item.name == mods[j].mod_item.name && mods[i].mod_item.mod_type
                == mods[j].mod_item.mod_type {
                return false;
            }
            j = j + 1;
        }
        i = i + 1;
    }
    true
}

/// `ps` names exactly the releases that meet the constraints.
pub open spec fn exactly_matching(
    mods: Seq<ModAndReleases>,
    c: Constraints,
    ps: Seq<(usize, usize)>,
) -> bool {
    &&& forall|m: int|
        0 <= m < ps.len() ==> valid_pair(mods, #[trigger] ps[m]) && release_matches(
            pair_release(mods, ps[m]),
            c,
        )
    &&& forall|i: int, j: int|
        0 <= i < mods.len() && 0 <= j < mods[i].releases@.len() && release_matches(
            release_at(mods, i, j),
            c,
        ) ==> #[trigger] pair_listed(ps, i, j)
}

/// Whether every mod has a release among `matching` that supports `v`.
fn every_mod_supports(
    mods: &Vec<ModAndReleases>,
    c: &Constraints,
    matching: &Vec<(usize, usize)>,
    v: &MCVersion,
) -> (r: bool)
    requires
        exactly_matching(mods@, *c, matching@),
    ensures
        r == forall|i: int| 0 <= i < mods@.len() ==> #[trigger] mod_supports(mods@, *c, i, v@),
{
    let mut i: usize = 0;
    while i < mods.len()
        invariant
            i <= mods.len(),
            exactly_matching(mods@, *c, matching@),
            forall|a: int| 0 <= a < i ==> #[trigger] mod_supports(mods@, *c, a, v@),
        decreases mods.len() - i,
    {
        let mut found = false;
        let mut m: usize = 0;
        while m < matching.len()
            invariant
                i < mods.len(),
                m <= matching.len(),
                exactly_matching(mods@, *c, matching@),
                found ==> mod_supports(mods@, *c, i as int, v@),
                !found ==> forall|q: int|
                    0 <= q < m && (#[trigger] matching@[q]).0 == i ==> !supports(
                        pair_release(mods@, matching@[q]),
                        v@,
                    ),
            decreases matching.len() - m,
        {
            let (a, b) = matching[m];
            if a == i {
                assert(valid_pair(mods@, matching@[m as int]));
                if mods[a].releases[b].supports_version(v) {
                    assert(release_at(mods@, a as int, b as int) == pair_release(mods@, matching@[m as int]));
                    found = true;
                }
            }
            m = m + 1;
        }
        if !found {
            assert(!mod_supports(mods@, *c, i as int, v@)) by {
                if mod_supports(mods@, *c, i as int, v@) {
                    let j = choose|j: int|
                        0 <= j < mods@[i as int].releases@.len() && release_matches(
                            #[trigger] release_at(mods@, i as int, j),
                            *c,
                        ) && supports(release_at(mods@, i as int, j), v@);
                    assert(pair_listed(matching@, i as int, j));
                    assert(mods@[i as int].releases@.len() == mods@[i as int].releases.len());
                    let ii = i as int;
                    let q = choose|q: int|
                        0 <= q < matching@.len() && #[trigger] matching@[q] == (ii as usize, j as usize);
                    assert(pair_release(mods@, matching@[q]) == release_at(mods@, i as int, j));
                }
            }
            return false;
        }
        i = i + 1;
    }
    true
}

/// Whether every version that a search over `mods` may compare is well formed.
pub fn input_is_comparable(mods: &Vec<ModAndReleases>, c: &Constraints) -> (r: bool)
    ensures
        r == comparable_input(mods@, *c),
{
    let mut i: usize = 0;
    while i < mods.len()
        invariant
            i <= mods.len(),
            forall|a: int, b: int|
                0 <= a < i && 0 <= b < mods@[a].releases@.len() ==> release_comparable(
                    #[trigger] release_at(mods@, a, b),
                    *c,
                ),
        decreases mods.len() - i,
    {
        let mut j: usize = 0;
        while j < mods[i].releases.len()
            invariant
                i < mods.len(),
                j <= mods@[i as int].releases@.len(),
                forall|a: int, b: int|
                    (0 <= a < i && 0 <= b < mods@[a].releases@.len()) || (a == i && 0 <= b < j)
                        ==> release_comparable(#[trigger] release_at(mods@, a, b), *c),
            decreases mods@[i as int].releases@.len() - j,
        {
            assert(release_at(mods@, i as int, j as int) == mods@[i as int].releases@[j as int]);
            if !mods[i].releases[j].is_comparable(c) {
                return false;
            }
            j = j + 1;
        }
        i = i + 1;
    }
    true
}

/// `w` is supported by every mod and no such version is greater.
pub open spec fn is_best(mods: Seq<ModAndReleases>, c: Constraints, w: Seq<char>) -> bool {
    &&& is_candidate(mods, c, w)
    &&& supported_by_all(mods, c, w)
    &&& forall|v: Seq<char>|
        #[trigger] is_candidate(mods, c, v) && supported_by_all(mods, c, v) ==> version_order(w, v)
            != std::cmp::Ordering::Less
}

/// `w` is the version the search settles on: a best one, and of the best ones
/// that are equal as versions but differ in text, the one whose first
/// occurrence among the matching releases comes last.
pub open spec fn is_answer(mods: Seq<ModAndReleases>, c: Constraints, w: Seq<char>) -> bool {
    &&& is_best(mods, c, w)
    &&& forall|u: Seq<char>|
        #[trigger] is_candidate(mods, c, u) && supported_by_all(mods, c, u) && u != w
            && version_order(u, w) == std::cmp::Ordering::Equal ==> candidate_order(mods, c).index_of(
            u,
        ) < candidate_order(mods, c).index_of(w)
}

/// No release meets the constraints.
pub open spec fn no_release_matches(mods: Seq<ModAndReleases>, c: Constraints) -> bool {
    forall|i: int, j: int|
        0 <= i < mods.len() && 0 <= j < mods[i].releases@.len() ==> !release_matches(
            #[trigger] release_at(mods, i, j),
            c,
        )
}

/// Two versions that are each a best answer for one list of mods and one set of
/// constraints are equal as versions.
pub proof fn lemma_best_is_unique(
    mods: Seq<ModAndReleases>,
    c: Constraints,
    w1: Seq<char>,
    w2: Seq<char>,
)
    requires
        is_best(mods, c, w1),
        is_best(mods, c, w2),
    ensures
        version_order(w1, w2) == std::cmp::Ordering::Equal,
{
    assert(is_candidate(mods, c, w2));
    assert(is_candidate(mods, c, w1));
    lemma_order_from_flip(components(w1), components(w2), 0);
}

/// The search answers the same on the same input: one list of mods and one set
/// of constraints have at most one answer.
pub proof fn lemma_answer_is_unique(
    mods: Seq<ModAndReleases>,
    c: Constraints,
    w1: Seq<char>,
    w2: Seq<char>,
)
    requires
        is_answer(mods, c, w1),
        is_answer(mods, c, w2),
    ensures
        w1 == w2,
{
    lemma_best_is_unique(mods, c, w1, w2);
    lemma_order_from_flip(components(w1), components(w2), 0);
    assert(is_candidate(mods, c, w1));
    assert(is_candidate(mods, c, w2));
}

/// When no release meets the constraints, no version is found.
pub proof fn lemma_no_matching_release_no_version(mods: Seq<ModAndReleases>, c: Constraints)
    requires
        no_release_matches(mods, c),
    ensures
        !exists|v: Seq<char>| #[trigger] is_candidate(mods, c, v) && supported_by_all(mods, c, v),
{
    assert forall|v: Seq<char>| !#[trigger] is_candidate(mods, c, v) by {
        if is_candidate(mods, c, v) {
            let (i, j) = choose|i: int, j: int|
                0 <= i < mods.len() && 0 <= j < mods[i].releases@.len() && release_matches(
                    #[trigger] release_at(mods, i, j),
                    c,
                ) && supports(release_at(mods, i, j), v);
        }
    }
}

/// Find the highest MC version that satisfies the constraints for all mods
pub fn find_best_mc_version(mods: Vec<ModAndReleases>, c: Constraints) -> (r: Option<MCVersion>)
    requires
        comparable_input(mods@, c),
    ensures
        r is Some <==> exists|v: Seq<char>|
            #[trigger] is_candidate(mods@, c, v) && supported_by_all(mods@, c, v),
        r matches Some(w) ==> is_answer(mods@, c, w@),
        no_release_matches(mods@, c) ==> r is None,
{
    proof {
        if no_release_matches(mods@, c) {
            lemma_no_matching_release_no_version(mods@, c);
        }
    }
    let flat = get_flat_releases(&mods);
    let mut matching: Vec<(usize, usize)> = Vec::new();
    let mut k: usize = 0;
    assert(flat@.take(0) =~= Seq::<(usize, usize)>::empty());
    while k < flat.len()
        invariant
            k <= flat.len(),
            matching@ == keep_matching(mods@, c, flat@.take(k as int)),
            comparable_input(mods@, c),
            forall|q: int| 0 <= q < flat@.len() ==> valid_pair(mods@, #[trigger] flat@[q]),
            forall|m: int|
                0 <= m < matching@.len() ==> valid_pair(mods@, #[trigger] matching@[m])
                    && release_matches(pair_release(mods@, matching@[m]), c),
            forall|q: int|
                0 <= q < k && release_matches(pair_release(mods@, #[trigger] flat@[q]), c)
                    ==> pair_listed(matching@, flat@[q].0 as int, flat@[q].1 as int),
        decreases flat.len() - k,
    {
        let (i, j) = flat[k];
        assert(valid_pair(mods@, flat@[k as int]));
        assert(release_at(mods@, i as int, j as int) == mods@[i as int].releases@[j as int]);
        let ghost old_matching = matching@;
        assert(flat@.take(k + 1).drop_last() =~= flat@.take(k as int));
        assert(flat@.take(k + 1).last() == flat@[k as int]);
        if mods[i].releases[j].match_constraints(&c) {
            matching.push((i, j));
            assert(matching@[old_matching.len() as int] == (i, j));
        }
        assert forall|q: int|
            0 <= q < k + 1 && release_matches(pair_release(mods@, #[trigger] flat@[q]), c)
                implies pair_listed(matching@, flat@[q].0 as int, flat@[q].1 as int) by {
            if q < k {
                let t = choose|t: int|
                    0 <= t < old_matching.len() && #[trigger] old_matching[t] == (
                        flat@[q].0,
                        flat@[q].1,
                    );
                assert(matching@[t] == old_matching[t]);
            }
        }
        k = k + 1;
    }
    assert(flat@.take(k as int) =~= flat@);
    assert(exactly_matching(mods@, c, matching@)) by {
        assert forall|i: int, j: int|
            0 <= i < mods@.len() && 0 <= j < mods@[i].releases@.len() && release_matches(
                release_at(mods@, i, j),
                c,
            ) implies #[trigger] pair_listed(matching@, i, j) by {
            assert(pair_listed(flat@, i, j));
            assert(mods@.len() == mods.len());
            assert(mods@[i].releases@.len() == mods@[i].releases.len());
            let q = choose|q: int| 0 <= q < flat@.len() && #[trigger] flat@[q] == (i as usize, j as usize);
            assert(pair_release(mods@, flat@[q]) == release_at(mods@, i, j));
        }
    }
    assert forall|q: int, t: int|
        0 <= q < matching@.len() && 0 <= t < pair_release(mods@, matching@[q]).mc_versions@.len()
            implies version_wf((#[trigger] pair_release(mods@, matching@[q]).mc_versions@[t])@) by {
        let p = matching@[q];
        assert(valid_pair(mods@, p));
        assert(release_at(mods@, p.0 as int, p.1 as int) == pair_release(mods@, p));
    }
    let candidates = extract_sorted_unique_mc_versions(&mods, &matching);
    assert(matching@ == keep_matching(mods@, c, flat_pairs(mods@)));
    assert forall|x: Seq<char>|
        #![trigger version_views(candidates@).contains(x)]
        #![trigger is_candidate(mods@, c, x)]
        version_views(candidates@).contains(x) <==> is_candidate(mods@, c, x) by {
        if listed_version(mods@, matching@, x) {
            let q = choose|q: int| 0 <= q < matching@.len() && supports(#[trigger] pair_release(mods@, matching@[q]), x);
            let p = matching@[q];
            assert(valid_pair(mods@, p));
            assert(release_at(mods@, p.0 as int, p.1 as int) == pair_release(mods@, p));
        }
        if is_candidate(mods@, c, x) {
            let (i, j) = choose|i: int, j: int|
                0 <= i < mods@.len() && 0 <= j < mods@[i].releases@.len() && release_matches(
                    #[trigger] release_at(mods@, i, j),
                    c,
                ) && supports(release_at(mods@, i, j), x);
            assert(pair_listed(matching@, i, j));
            assert(mods@.len() == mods.len());
            assert(mods@[i].releases@.len() == mods@[i].releases.len());
            let q = choose|q: int| 0 <= q < matching@.len() && #[trigger] matching@[q] == (i as usize, j as usize);
            assert(pair_release(mods@, matching@[q]) == release_at(mods@, i, j));
        }
    }
    let distinct = mods_are_distinct(&mods);
    let mut k: usize = candidates.len();
    while k > 0
        invariant
            k <= candidates.len(),
            exactly_matching(mods@, c, matching@),
            distinct == mods_distinct(mods@),
            forall|x: Seq<char>|
                #![trigger version_views(candidates@).contains(x)]
                #![trigger is_candidate(mods@, c, x)]
                version_views(candidates@).contains(x) <==> is_candidate(mods@, c, x),
            forall|a: int, b: int|
                0 <= a < b < candidates@.len() ==> version_order(
                    (#[trigger] candidates@[a])@,
                    (#[trigger] candidates@[b])@,
                ) != std::cmp::Ordering::Greater,
            forall|q: int|
                k <= q < candidates@.len() ==> !supported_by_all(mods@, c, (#[trigger] candidates@[q])@),
            forall|a: int, b: int|
                0 <= a < b < candidates@.len() && version_order(
                    (#[trigger] candidates@[a])@,
                    (#[trigger] candidates@[b])@,
                ) == std::cmp::Ordering::Equal ==> candidate_order(mods@, c).index_of(candidates@[a]@)
                    < candidate_order(mods@, c).index_of(candidates@[b]@),
        decreases k,
    {
        k = k - 1;
        if distinct && every_mod_supports(&mods, &c, &matching, &candidates[k]) {
            let best = MCVersion::new(candidates[k].str.as_str());
            proof {
                let w = candidates@[k as int]@;
                assert(version_views(candidates@)[k as int] == w);
                assert(version_views(candidates@).contains(w));
                assert(is_candidate(mods@, c, w));
                assert forall|v: Seq<char>|
                    #[trigger] is_candidate(mods@, c, v) && supported_by_all(mods@, c, v)
                        implies version_order(w, v) != std::cmp::Ordering::Less by {
                    assert(version_views(candidates@).contains(v));
                    let q = choose|q: int| 0 <= q < candidates@.len() && version_views(candidates@)[q] == v;
                    assert(candidates@[q]@ == v);
                    lemma_order_from_flip(components(v), components(w), 0);
                    lemma_order_from_refl(components(w), 0);
                    if q < k {
                        assert(version_order(candidates@[q]@, candidates@[k as int]@) != std::cmp::Ordering::Greater);
                    }
                }
                assert forall|u: Seq<char>|
                    #[trigger] is_candidate(mods@, c, u) && supported_by_all(mods@, c, u) && u != w
                        && version_order(u, w) == std::cmp::Ordering::Equal implies candidate_order(
                        mods@,
                        c,
                    ).index_of(u) < candidate_order(mods@, c).index_of(w) by {
                    assert(version_views(candidates@).contains(u));
                    let q = choose|q: int| 0 <= q < candidates@.len() && version_views(candidates@)[q] == u;
                    assert(candidates@[q]@ == u);
                    assert(q != k);
                    if q > k {
                        assert(!supported_by_all(mods@, c, candidates@[q]@));
                    }
                }
            }
            return Some(best);
        }
    }
    proof {
        assert forall|v: Seq<char>|
            #[trigger] is_candidate(mods@, c, v) implies !supported_by_all(mods@, c, v) by {
            assert(version_views(candidates@).contains(v));
            let q = choose|q: int| 0 <= q < candidates@.len() && version_views(candidates@)[q] == v;
            assert(candidates@[q]@ == v);
        }
    }
    None
}

} // verus!
