//! The nearest-station resolver: candidates from the k-d tree under squared
//! Euclidean distance on raw (longitude, latitude), re-ranked by a true
//! distance that the caller supplies as a metric in metres.
//!
//! Euclidean distance in longitude/latitude space does not follow distance
//! on the globe, so the tree only narrows the field: a query over-fetches
//! candidates and ranks them by the metric.

use crate::records::{copy_text, Station};
use crate::sorting::{lemma_stable_sorted, stable_sort, stable_sorted, SortKey};
use crate::spatial::{
    count_x, count_y, min_len, sq_dist, tree_add, tree_nearest, tree_new, tree_points, uncrowded,
    within_limit, PointTree, SHARE_LIMIT, COORD_LIMIT, INDEX_CAPACITY,
};
use vstd::prelude::*;

verus! {

/// Candidates a single-nearest query takes from the tree.
pub const NEAREST_CANDIDATES: usize = 10;

/// Candidates a k-nearest query takes from the tree, per station asked for.
pub const OVERFETCH_FACTOR: usize = 3;

/// A station with its distance in metres from a query point.
#[derive(Debug, Clone)]
pub struct StationWithDistance {
    pub id: i64,
    pub name: String,
    pub lon_x: i64,
    pub lat_y: i64,
    pub distance_m: u64,
    pub dly_first_date: Option<String>,
    pub dly_last_date: Option<String>,
}

impl SortKey for StationWithDistance {
    open spec fn sort_key(&self) -> int {
        self.distance_m as int
    }

    fn key(&self) -> (k: u128) {
        self.distance_m as u128
    }
}

impl SortKey for usize {
    open spec fn sort_key(&self) -> int {
        *self as int
    }

    fn key(&self) -> (k: u128) {
        *self as u128
    }
}

/// Why a station list cannot be indexed.
#[derive(Debug, Clone, Copy, PartialEq, Eq)]
pub enum FinderError {
    /// A coordinate lies beyond 180 degrees.
    CoordinateOutOfRange,
    /// Two stations share an identifier.
    DuplicateStationId,
}

/// A station index with its squared Euclidean distance from a query point.
struct ScanEntry {
    index: usize,
    dist: u128,
}

impl SortKey for ScanEntry {
    closed spec fn sort_key(&self) -> int {
        self.dist as int
    }

    fn key(&self) -> (k: u128) {
        self.dist
    }
}

/// Whether `near` lists station indices nearest to `q` first: at least `c`
/// of them, distinct, none farther in squared Euclidean distance than any
/// station left out.
pub open spec fn nearest_listing(pts: Seq<(int, int)>, q: (int, int), c: int, near: Seq<u64>) -> bool {
    &&& c <= near.len() <= pts.len()
    &&& forall|i: int| 0 <= i < near.len() ==> #[trigger] near[i] < pts.len()
    &&& forall|i: int, j: int| 0 <= i < j < near.len() ==> near[i] != near[j]
    &&& forall|i: int, j: int|
        0 <= i < j < near.len() ==> sq_dist(pts[near[i] as int], q) <= sq_dist(pts[near[j] as int], q)
    &&& forall|i: int, m: int|
        #![trigger near[i], pts[m]]
        0 <= i < near.len() && 0 <= m < pts.len() && !near.contains(m as u64) ==> sq_dist(
            pts[near[i] as int],
            q,
        ) <= sq_dist(pts[m], q)
}

pub open spec fn station_point(s: Station) -> (int, int) {
    (s.lon_x as int, s.lat_y as int)
}

/// The (longitude, latitude) points of the stations, in order.
pub open spec fn points_of(s: Seq<Station>) -> Seq<(int, int)> {
    s.map_values(|st: Station| station_point(st))
}

pub open spec fn coordinates_valid(s: Seq<Station>) -> bool {
    forall|i: int|
        #![trigger s[i]]
        0 <= i < s.len() ==> within_limit(s[i].lon_x as int) && within_limit(s[i].lat_y as int)
}

pub open spec fn ids_unique(s: Seq<Station>) -> bool {
    forall|i: int, j: int| 0 <= i < j < s.len() ==> #[trigger] s[i].id != #[trigger] s[j].id
}

/// A station with a distance attached.
pub open spec fn with_distance(s: Station, d: u64) -> StationWithDistance {
    StationWithDistance {
        id: s.id,
        name: s.name,
        lon_x: s.lon_x,
        lat_y: s.lat_y,
        distance_m: d,
        dly_first_date: s.dly_first_date,
        dly_last_date: s.dly_last_date,
    }
}

/// Whether `cands` are `c` station indices in ascending order, none of them
/// farther from `q` in squared Euclidean distance than any station left out.
pub open spec fn euclid_candidates(
    pts: Seq<(int, int)>,
    q: (int, int),
    cands: Seq<usize>,
    c: int,
) -> bool {
    &&& cands.len() == c
    &&& forall|i: int| 0 <= i < cands.len() ==> #[trigger] cands[i] < pts.len()
    &&& forall|i: int, j: int| 0 <= i < j < cands.len() ==> cands[i] < cands[j]
    &&& forall|i: int, m: int|
        #![trigger cands[i], pts[m]]
        0 <= i < cands.len() && 0 <= m < pts.len() && !cands.contains(m as usize) ==> sq_dist(
            pts[cands[i] as int],
            q,
        ) <= sq_dist(pts[m], q)
}

/// Whether `dists` are distances that `metric` gave from (`lat`, `lon`) to
/// the candidate stations.
pub open spec fn measured_by<F: Fn(i64, i64, i64, i64) -> u64>(
    metric: F,
    lat: i64,
    lon: i64,
    stations: Seq<Station>,
    cands: Seq<usize>,
    dists: Seq<u64>,
) -> bool {
    &&& dists.len() == cands.len()
    &&& forall|i: int|
        0 <= i < cands.len() ==> metric.ensures(
            (
                lat,
                lon,
                #[trigger] stations[cands[i] as int].lat_y,
                stations[cands[i] as int].lon_x,
            ),
            dists[i],
        )
}

/// The candidates with their distances, nearest first (ties in candidate
/// order), cut to at most `k`.
pub open spec fn ranked(
    stations: Seq<Station>,
    cands: Seq<usize>,
    dists: Seq<u64>,
    k: int,
) -> Seq<StationWithDistance> {
    let with = Seq::new(cands.len(), |i: int| with_distance(stations[cands[i] as int], dists[i]));
    stable_sorted(with).take(min_len(k, cands.len() as int))
}

/// Candidates a k-nearest query over `n` stations takes: three per station
/// asked for, at most all of them.
pub open spec fn candidate_count(k: int, n: int) -> int {
    min_len(OVERFETCH_FACTOR * k, n)
}

/// Finds the stations nearest to a point: a k-d tree over the stations'
/// (longitude, latitude) narrows the field, a caller's metric ranks it.
pub struct NearestStationFinder {
    kdtree: Option<PointTree>,
    stations: Vec<Station>,
}

impl NearestStationFinder {
    /// Whether a station list can be indexed: coordinates in range and
    /// identifiers unique.
    pub open spec fn indexable(s: Seq<Station>) -> bool {
        coordinates_valid(s) && ids_unique(s)
    }

    /// Whether indexing `s` fails with `e`, the first of the checks in the
    /// order range, identifiers that `s` does not pass.
    pub open spec fn new_fails_with(s: Seq<Station>, e: FinderError) -> bool {
        match e {
            FinderError::CoordinateOutOfRange => !coordinates_valid(s),
            FinderError::DuplicateStationId => coordinates_valid(s) && !ids_unique(s),
        }
    }

    /// The stations, in the order in which they were indexed.
    pub closed spec fn station_list(&self) -> Seq<Station> {
        self.stations@
    }

    /// Coordinates are in range and identifiers unique; a tree, when there
    /// is one, holds each station's point under its index, and no coordinate
    /// value is shared by more stations than it splits cleanly.
    pub closed spec fn wf(&self) -> bool {
        &&& coordinates_valid(self.stations@)
        &&& ids_unique(self.stations@)
        &&& match self.kdtree {
            Some(t) => tree_points(t) == points_of(self.stations@) && uncrowded(
                points_of(self.stations@),
            ),
            None => true,
        }
    }

    /// Whether `r` is what `c` tree candidates around (`lat`, `lon`), ranked
    /// by `metric` and cut to `k`, give.
    pub open spec fn is_ranked_nearest<F: Fn(i64, i64, i64, i64) -> u64>(
        &self,
        lat: i64,
        lon: i64,
        c: int,
        k: int,
        metric: F,
        r: Seq<StationWithDistance>,
    ) -> bool {
        exists|cands: Seq<usize>, dists: Seq<u64>|
            #![trigger measured_by(metric, lat, lon, self.station_list(), cands, dists)]
            euclid_candidates(points_of(self.station_list()), (lon as int, lat as int), cands, c)
                && measured_by(metric, lat, lon, self.station_list(), cands, dists) && r == ranked(
                self.station_list(),
                cands,
                dists,
                k,
            )
    }

    /// Whether `r` answers a k-nearest query: `3k` tree candidates (at most
    /// all stations) ranked by `metric` and cut to `k`.
    pub open spec fn is_k_nearest<F: Fn(i64, i64, i64, i64) -> u64>(
        &self,
        lat: i64,
        lon: i64,
        k: int,
        metric: F,
        r: Seq<StationWithDistance>,
    ) -> bool {
        self.is_ranked_nearest(
            lat,
            lon,
            candidate_count(k, self.station_list().len() as int),
            k,
            metric,
            r,
        )
    }
}

proof fn lemma_points_take(s: Seq<Station>, j: int)
    requires
        0 <= j < s.len(),
    ensures
        points_of(s.take(j + 1)) =~= points_of(s.take(j)).push(station_point(s[j])),
{
}

proof fn lemma_count_prefix(s: Seq<(int, int)>, i: int, j: int, v: int)
    requires
        0 <= i <= j <= s.len(),
    ensures
        count_x(s.take(i), v) <= count_x(s.take(j), v),
        count_y(s.take(i), v) <= count_y(s.take(j), v),
    decreases j - i,
{
    if i < j {
        lemma_count_prefix(s, i, j - 1, v);
        assert(s.take(j).drop_last() =~= s.take(j - 1));
    }
}

proof fn lemma_count_witness(s: Seq<(int, int)>, v: int)
    ensures
        count_x(s, v) > 0 ==> exists|i: int| 0 <= i < s.len() && #[trigger] s[i].0 == v,
        count_y(s, v) > 0 ==> exists|i: int| 0 <= i < s.len() && #[trigger] s[i].1 == v,
    decreases s.len(),
{
    if s.len() > 0 {
        lemma_count_witness(s.drop_last(), v);
        if count_x(s.drop_last(), v) > 0 {
            let i = choose|i: int| 0 <= i < s.drop_last().len() && #[trigger] s.drop_last()[i].0 == v;
            assert(s[i].0 == v);
        }
        if count_y(s.drop_last(), v) > 0 {
            let i = choose|i: int| 0 <= i < s.drop_last().len() && #[trigger] s.drop_last()[i].1 == v;
            assert(s[i].1 == v);
        }
        assert(s[s.len() - 1] == s.last());
    }
}

fn count_longitude(stations: &Vec<Station>, v: i64) -> (c: usize)
    ensures
        c == count_x(points_of(stations@), v as int),
{
    let mut c: usize = 0;
    let mut j: usize = 0;
    while j < stations.len()
        invariant
            j <= stations.len(),
            c <= j,
            c == count_x(points_of(stations@.take(j as int)), v as int),
        decreases stations.len() - j,
    {
        proof {
            lemma_points_take(stations@, j as int);
            assert(points_of(stations@.take(j as int + 1)).drop_last() =~= points_of(
                stations@.take(j as int),
            ));
        }
        if stations[j].lon_x == v {
            c = c + 1;
        }
        j = j + 1;
    }
    assert(stations@.take(j as int) =~= stations@);
    c
}

fn count_latitude(stations: &Vec<Station>, v: i64) -> (c: usize)
    ensures
        c == count_y(points_of(stations@), v as int),
{
    let mut c: usize = 0;
    let mut j: usize = 0;
    while j < stations.len()
        invariant
            j <= stations.len(),
            c <= j,
            c == count_y(points_of(stations@.take(j as int)), v as int),
        decreases stations.len() - j,
    {
        proof {
            lemma_points_take(stations@, j as int);
            assert(points_of(stations@.take(j as int + 1)).drop_last() =~= points_of(
                stations@.take(j as int),
            ));
        }
        if stations[j].lat_y == v {
            c = c + 1;
        }
        j = j + 1;
    }
    assert(stations@.take(j as int) =~= stations@);
    c
}

impl NearestStationFinder {
    /// Indexes `stations`: each station's (longitude, latitude) goes into the
    /// tree under its position in the list. When more stations share one
    /// longitude or latitude than the tree splits cleanly, queries scan the
    /// stations instead, with the same results.
    pub fn new(stations: Vec<Station>) -> (r: Result<NearestStationFinder, FinderError>)
        requires
            stations.len() < INDEX_CAPACITY,
        ensures
            r matches Ok(f) ==> f.wf() && f.station_list() == stations@,
            (r matches Err(FinderError::CoordinateOutOfRange)) <==> !coordinates_valid(stations@),
            (r matches Err(FinderError::DuplicateStationId)) <==> coordinates_valid(stations@)
                && !ids_unique(stations@),
    {
        let n = stations.len();
        let mut i: usize = 0;
        while i < n
            invariant
                n == stations.len(),
                i <= n,
                forall|j: int|
                    #![trigger stations@[j]]
                    0 <= j < i ==> within_limit(stations@[j].lon_x as int) && within_limit(
                        stations@[j].lat_y as int,
                    ),
            decreases n - i,
        {
            let st = &stations[i];
            if !(-COORD_LIMIT <= st.lon_x && st.lon_x <= COORD_LIMIT && -COORD_LIMIT <= st.lat_y
                && st.lat_y <= COORD_LIMIT) {
                return Err(FinderError::CoordinateOutOfRange);
            }
            assert(within_limit(stations@[i as int].lon_x as int) && within_limit(
                stations@[i as int].lat_y as int,
            ));
            i = i + 1;
        }
        assert(coordinates_valid(stations@));
        let mut i: usize = 0;
        while i < n
            invariant
                n == stations.len(),
                i <= n,
                coordinates_valid(stations@),
                forall|a: int, b: int|
                    0 <= a < i && a < b < n ==> #[trigger] stations@[a].id
                        != #[trigger] stations@[b].id,
            decreases n - i,
        {
            let mut j: usize = i + 1;
            while j < n
                invariant
                    n == stations.len(),
                    coordinates_valid(stations@),
                    i < n,
                    i + 1 <= j <= n,
                    forall|b: int| i < b < j ==> stations@[i as int].id != #[trigger] stations@[b].id,
                decreases n - j,
            {
                if stations[i].id == stations[j].id {
                    return Err(FinderError::DuplicateStationId);
                }
                j = j + 1;
            }
            i = i + 1;
        }
        assert(ids_unique(stations@));
        let ghost pts = points_of(stations@);
        let mut i: usize = 0;
        while i < n
            invariant
                n == stations.len(),
                i <= n,
                pts == points_of(stations@),
                pts.len() == n,
                coordinates_valid(stations@),
                ids_unique(stations@),
                forall|j: int| 0 <= j < i ==> count_x(pts, #[trigger] pts[j].0) < SHARE_LIMIT,
                forall|j: int| 0 <= j < i ==> count_y(pts, #[trigger] pts[j].1) < SHARE_LIMIT,
            decreases n - i,
        {
            let cx = count_longitude(&stations, stations[i].lon_x);
            let cy = count_latitude(&stations, stations[i].lat_y);
            if cx >= SHARE_LIMIT || cy >= SHARE_LIMIT {
                return Ok(NearestStationFinder { kdtree: None, stations });
            }
            assert(pts[i as int] == station_point(stations@[i as int]));
            i = i + 1;
        }
        proof {
            assert forall|v: int| #[trigger] count_x(pts, v) < SHARE_LIMIT by {
                lemma_count_witness(pts, v);
                if count_x(pts, v) >= SHARE_LIMIT {
                    let j = choose|j: int| 0 <= j < pts.len() && #[trigger] pts[j].0 == v;
                }
            }
            assert forall|v: int| #[trigger] count_y(pts, v) < SHARE_LIMIT by {
                lemma_count_witness(pts, v);
                if count_y(pts, v) >= SHARE_LIMIT {
                    let j = choose|j: int| 0 <= j < pts.len() && #[trigger] pts[j].1 == v;
                }
            }
            assert(uncrowded(pts));
        }
        let mut tree = tree_new();
        let mut i: usize = 0;
        while i < n
            invariant
                n == stations.len() < INDEX_CAPACITY,
                i <= n,
                pts == points_of(stations@),
                uncrowded(pts),
                tree_points(tree) == points_of(stations@.take(i as int)),
            decreases n - i,
        {
            proof {
                assert(pts.take(i as int) =~= points_of(stations@.take(i as int)));
                assert(pts.take(n as int) =~= pts);
                assert forall|v: int| #[trigger] count_x(pts.take(i as int), v) < SHARE_LIMIT by {
                    lemma_count_prefix(pts, i as int, n as int, v);
                    assert(count_x(pts, v) < SHARE_LIMIT);
                }
                assert forall|v: int| #[trigger] count_y(pts.take(i as int), v) < SHARE_LIMIT by {
                    lemma_count_prefix(pts, i as int, n as int, v);
                    assert(count_y(pts, v) < SHARE_LIMIT);
                }
                lemma_points_take(stations@, i as int);
            }
            tree_add(&mut tree, stations[i].lon_x, stations[i].lat_y, i as u64);
            i = i + 1;
        }
        assert(stations@.take(n as int) =~= stations@);
        Ok(NearestStationFinder { kdtree: Some(tree), stations })
    }
}

/// Squared Euclidean distance between two points within the coordinate limit.
fn sq_dist_exec(x1: i64, y1: i64, x2: i64, y2: i64) -> (r: u128)
    requires
        within_limit(x1 as int),
        within_limit(y1 as int),
        within_limit(x2 as int),
        within_limit(y2 as int),
    ensures
        r == sq_dist((x1 as int, y1 as int), (x2 as int, y2 as int)),
{
    let dx = (x1 as i128) - (x2 as i128);
    let dy = (y1 as i128) - (y2 as i128);
    assert(dx * dx <= 3_600_000_000 * 3_600_000_000 && 0 <= dx * dx) by (nonlinear_arith)
        requires
            -3_600_000_000 <= dx <= 3_600_000_000,
    ;
    assert(dy * dy <= 3_600_000_000 * 3_600_000_000 && 0 <= dy * dy) by (nonlinear_arith)
        requires
            -3_600_000_000 <= dy <= 3_600_000_000,
    ;
    (dx * dx + dy * dy) as u128
}

/// The `c` stations nearest to (`x`, `y`) in squared Euclidean distance,
/// found by measuring every station.
fn scan_nearest(stations: &Vec<Station>, x: i64, y: i64, c: usize) -> (r: Vec<u64>)
    requires
        coordinates_valid(stations@),
        within_limit(x as int),
        within_limit(y as int),
        c <= stations.len(),
    ensures
        r.len() == c,
        nearest_listing(points_of(stations@), (x as int, y as int), c as int, r@),
{
    let ghost pts = points_of(stations@);
    let ghost q = (x as int, y as int);
    let n = stations.len();
    let mut entries: Vec<ScanEntry> = Vec::new();
    let mut i: usize = 0;
    while i < n
        invariant
            n == stations.len(),
            i <= n,
            pts == points_of(stations@),
            q == (x as int, y as int),
            coordinates_valid(stations@),
            within_limit(x as int),
            within_limit(y as int),
            entries@.len() == i,
            forall|j: int|
                0 <= j < i ==> (#[trigger] entries@[j]).index == j && entries@[j].dist == sq_dist(
                    pts[j],
                    q,
                ),
        decreases n - i,
    {
        assert(stations@[i as int] == stations@[i as int]);
        let d = sq_dist_exec(stations[i].lon_x, stations[i].lat_y, x, y);
        assert(pts[i as int] == station_point(stations@[i as int]));
        entries.push(ScanEntry { index: i, dist: d });
        i = i + 1;
    }
    let ghost all = entries@;
    proof {
        assert(all.no_duplicates()) by {
            assert forall|a: int, b: int| 0 <= a < all.len() && 0 <= b < all.len() && a
                != b implies all[a] != all[b] by {
                assert(all[a].index != all[b].index);
            }
        }
        all.lemma_multiset_has_no_duplicates();
    }
    let sorted = stable_sort(entries);
    let ghost ss = sorted@;
    proof {
        lemma_stable_sorted(all);
        all.to_multiset_ensures();
        ss.to_multiset_ensures();
        ss.lemma_multiset_has_no_duplicates_conv();
        assert forall|a: int| 0 <= a < ss.len() implies (#[trigger] ss[a]).index < n
            && ss[a].dist == sq_dist(pts[ss[a].index as int], q) by {
            assert(ss.contains(ss[a]));
            assert(all.contains(ss[a]));
        }
    }
    let mut r: Vec<u64> = Vec::new();
    let mut j: usize = 0;
    while j < c
        invariant
            j <= c <= n == ss.len(),
            sorted@ == ss,
            forall|a: int| 0 <= a < ss.len() ==> (#[trigger] ss[a]).index < n,
            r@ == Seq::new(j as nat, |a: int| ss[a].index as u64),
        decreases c - j,
    {
        r.push(sorted[j].index as u64);
        j = j + 1;
        assert(r@ =~= Seq::new(j as nat, |a: int| ss[a].index as u64));
    }
    proof {
        let near = r@;
        assert(pts.len() == n);
        assert forall|a: int, b: int| 0 <= a < b < near.len() implies near[a] != near[b] by {
            assert(ss[a] != ss[b]);
            assert(ss.contains(ss[a]) && ss.contains(ss[b]));
            assert(all.contains(ss[a]) && all.contains(ss[b]));
            let ia = choose|ia: int| 0 <= ia < all.len() && all[ia] == ss[a];
            let ib = choose|ib: int| 0 <= ib < all.len() && all[ib] == ss[b];
        }
        assert forall|a: int, b: int| 0 <= a < b < near.len() implies sq_dist(
            pts[near[a] as int],
            q,
        ) <= sq_dist(pts[near[b] as int], q) by {
            assert(ss[a].sort_key() <= ss[b].sort_key());
        }
        assert forall|a: int, m: int|
            #![trigger near[a], pts[m]]
            0 <= a < near.len() && 0 <= m < pts.len() && !near.contains(m as u64) implies sq_dist(
            pts[near[a] as int],
            q,
        ) <= sq_dist(pts[m], q) by {
            assert(all[m].index == m);
            assert(all.contains(all[m]));
            assert(all.to_multiset().count(all[m]) > 0);
            assert(ss.contains(all[m]));
            let p = choose|p: int| 0 <= p < ss.len() && ss[p] == all[m];
            if p < c {
                assert(near[p] == m as u64);
            }
            assert(ss[a].sort_key() <= ss[p].sort_key());
        }
    }
    r
}

impl NearestStationFinder {
    /// Station indices nearest to (`lat`, `lon`) in squared Euclidean
    /// distance on raw (longitude, latitude), at least `c` of them: from the
    /// tree, or by scanning when there is none.
    fn euclid_nearest(&self, lat: i64, lon: i64, c: usize) -> (r: Vec<u64>)
        requires
            self.wf(),
            within_limit(lat as int),
            within_limit(lon as int),
            1 <= c <= self.station_list().len(),
        ensures
            nearest_listing(points_of(self.station_list()), (lon as int, lat as int), c as int, r@),
    {
        match &self.kdtree {
            Some(t) => {
                proof {
                    let pts = points_of(self.stations@);
                    assert forall|i: int| 0 <= i < tree_points(*t).len() implies within_limit(
                        #[trigger] tree_points(*t)[i].0,
                    ) && within_limit(tree_points(*t)[i].1) by {
                        assert(pts[i] == station_point(self.stations@[i]));
                    }
                }
                tree_nearest(t, lon, lat, c)
            },
            None => scan_nearest(&self.stations, lon, lat, c),
        }
    }
}

/// The stations no farther from `q` than station `s` in squared Euclidean
/// distance on raw (longitude, latitude), `s` itself among them.
pub open spec fn no_farther(pts: Seq<(int, int)>, q: (int, int), s: int) -> Set<int> {
    Set::new(|t: int| 0 <= t < pts.len() && sq_dist(pts[t], q) <= sq_dist(pts[s], q))
}

/// A station that at most `c` stations (itself included) match or beat in
/// raw Euclidean distance is among any `c` Euclidean candidates.
proof fn lemma_close_station_is_candidate(
    pts: Seq<(int, int)>,
    q: (int, int),
    cands: Seq<usize>,
    c: int,
    s: int,
)
    requires
        euclid_candidates(pts, q, cands, c),
        0 <= s < pts.len(),
        no_farther(pts, q, s).len() <= c,
    ensures
        cands.contains(s as usize),
{
    if !cands.contains(s as usize) {
        let ci = cands.map_values(|x: usize| x as int);
        assert forall|a: int, b: int| 0 <= a < ci.len() && 0 <= b < ci.len() && a != b implies ci[a]
            != ci[b] by {
            if a < b {
                assert(cands[a] < cands[b]);
            } else {
                assert(cands[b] < cands[a]);
            }
        }
        ci.unique_seq_to_set();
        let big = ci.to_set().insert(s);
        let range = vstd::set_lib::set_int_range(0, pts.len() as int);
        vstd::set_lib::lemma_int_range(0, pts.len() as int);
        assert(no_farther(pts, q, s).subset_of(range));
        vstd::set_lib::lemma_len_subset(no_farther(pts, q, s), range);
        assert forall|t: int| big.contains(t) implies no_farther(pts, q, s).contains(t) by {
            if t != s {
                let a = choose|a: int| 0 <= a < ci.len() && ci[a] == t;
                assert(cands[a] < pts.len());
                assert(!cands.contains(s as usize));
                assert(sq_dist(pts[cands[a] as int], q) <= sq_dist(pts[s], q));
            }
        }
        assert(!ci.to_set().contains(s)) by {
            if ci.to_set().contains(s) {
                let a = choose|a: int| 0 <= a < ci.len() && ci[a] == s;
                assert(cands[a] == s as usize);
            }
        }
        vstd::set_lib::lemma_len_subset(big, no_farther(pts, q, s));
    }
}

/// Re-ranking by the metric never does worse than the raw coordinates: a
/// station that at most `c` stations (itself included) match or beat in
/// raw Euclidean distance, `c` being the candidate count, is among the
/// candidates; so when it is left out of the answer, every station the
/// answer holds is at least as near by the metric, for a metric that gives
/// each pair of points one distance.
pub proof fn lemma_refinement_beats_raw_ranking<F: Fn(i64, i64, i64, i64) -> u64>(
    finder: &NearestStationFinder,
    lat: i64,
    lon: i64,
    c: int,
    k: int,
    metric: F,
    r: Seq<StationWithDistance>,
    s: int,
    d: u64,
)
    requires
        k >= 0,
        finder.is_ranked_nearest(lat, lon, c, k, metric, r),
        0 <= s < finder.station_list().len(),
        no_farther(points_of(finder.station_list()), (lon as int, lat as int), s).len() <= c,
        forall|i: int| 0 <= i < r.len() ==> #[trigger] r[i].id != finder.station_list()[s].id,
        forall|a: (i64, i64, i64, i64), d1: u64, d2: u64|
            metric.ensures(a, d1) && metric.ensures(a, d2) ==> d1 == d2,
        metric.ensures(
            (lat, lon, finder.station_list()[s].lat_y, finder.station_list()[s].lon_x),
            d,
        ),
    ensures
        forall|i: int| 0 <= i < r.len() ==> #[trigger] r[i].distance_m <= d,
{
    let st = finder.station_list();
    let pts = points_of(st);
    let q = (lon as int, lat as int);
    let (cands, dists) = choose|cands: Seq<usize>, dists: Seq<u64>|
        #![trigger measured_by(metric, lat, lon, st, cands, dists)]
        euclid_candidates(pts, q, cands, c) && measured_by(metric, lat, lon, st, cands, dists)
            && r == ranked(st, cands, dists, k);
    lemma_close_station_is_candidate(pts, q, cands, c, s);
    assert(st.len() <= usize::MAX) by {
        assert(st == finder.stations@);
        assert(finder.stations@.len() == finder.stations.len());
    }
    let j = choose|j: int| 0 <= j < cands.len() && cands[j] == s as usize;
    assert(cands[j] as int == s);
    assert(metric.ensures(
        (lat, lon, st[cands[j] as int].lat_y, st[cands[j] as int].lon_x),
        dists[j],
    ));
    assert(dists[j] == d);
    let with = Seq::new(cands.len(), |i: int| with_distance(st[cands[i] as int], dists[i]));
    let sorted = stable_sorted(with);
    lemma_stable_sorted(with);
    with.to_multiset_ensures();
    sorted.to_multiset_ensures();
    assert(with.contains(with[j]));
    assert(sorted.to_multiset().count(with[j]) > 0);
    let p = choose|p: int| 0 <= p < sorted.len() && sorted[p] == with[j];
    assert(r.len() == min_len(k, cands.len() as int));
    if p < r.len() {
        assert(r[p] == sorted[p]);
        assert(r[p].id == st[s].id);
    }
    assert forall|i: int| 0 <= i < r.len() implies #[trigger] r[i].distance_m <= d by {
        assert(r[i] == sorted[i]);
        assert(sorted[i].sort_key() <= sorted[p].sort_key());
    }
}

/// What a ranked answer looks like: `min(k, c)` stations, nearest first.
proof fn lemma_ranked_shape(stations: Seq<Station>, cands: Seq<usize>, dists: Seq<u64>, k: int)
    requires
        k >= 0,
    ensures
        ranked(stations, cands, dists, k).len() == min_len(k, cands.len() as int),
        forall|i: int, j: int|
            0 <= i <= j < ranked(stations, cands, dists, k).len() ==> ranked(
                stations,
                cands,
                dists,
                k,
            )[i].distance_m <= ranked(stations, cands, dists, k)[j].distance_m,
{
    let with = Seq::new(cands.len(), |i: int| with_distance(stations[cands[i] as int], dists[i]));
    lemma_stable_sorted(with);
    let r = ranked(stations, cands, dists, k);
    assert forall|i: int, j: int| 0 <= i <= j < r.len() implies r[i].distance_m
        <= r[j].distance_m by {
        assert(r[i] == stable_sorted(with)[i]);
        assert(r[j] == stable_sorted(with)[j]);
    }
}

/// A k-nearest answer holds `min(k, n)` of the `n` stations, so never more
/// than `k` and never more than there are, and runs from nearest to farthest
/// by the metric's distances.
pub proof fn lemma_k_nearest_bounds<F: Fn(i64, i64, i64, i64) -> u64>(
    finder: &NearestStationFinder,
    lat: i64,
    lon: i64,
    k: int,
    metric: F,
    r: Seq<StationWithDistance>,
)
    requires
        k >= 0,
        finder.is_k_nearest(lat, lon, k, metric, r),
    ensures
        r.len() == min_len(k, finder.station_list().len() as int),
        r.len() <= k,
        r.len() <= finder.station_list().len(),
        forall|i: int, j: int| 0 <= i <= j < r.len() ==> r[i].distance_m <= r[j].distance_m,
{
    let n = finder.station_list().len() as int;
    let (cands, dists) = choose|cands: Seq<usize>, dists: Seq<u64>|
        #![trigger measured_by(metric, lat, lon, finder.station_list(), cands, dists)]
        euclid_candidates(points_of(finder.station_list()), (lon as int, lat as int), cands, candidate_count(k, n))
            && measured_by(metric, lat, lon, finder.station_list(), cands, dists) && r == ranked(
            finder.station_list(),
            cands,
            dists,
            k,
        );
    lemma_ranked_shape(finder.station_list(), cands, dists, k);
}

impl NearestStationFinder {
    /// The `c` tree candidates nearest to (`lat`, `lon`) in index order,
    /// measured by `metric`, ranked nearest first and cut to `k`.
    fn ranked_nearest<F: Fn(i64, i64, i64, i64) -> u64>(
        &self,
        lat: i64,
        lon: i64,
        c: usize,
        k: usize,
        metric: &F,
    ) -> (r: Vec<StationWithDistance>)
        requires
            self.wf(),
            within_limit(lat as int),
            within_limit(lon as int),
            c <= self.station_list().len(),
            forall|a: i64, b: i64, x: i64, y: i64| metric.requires((a, b, x, y)),
        ensures
            self.is_ranked_nearest(lat, lon, c as int, k as int, *metric, r@),
    {
        let ghost stations = self.stations@;
        let ghost pts = points_of(stations);
        let ghost q = (lon as int, lat as int);
        let n = self.stations.len();
        if c == 0 {
            proof {
                let cands = Seq::<usize>::empty();
                let dists = Seq::<u64>::empty();
                assert(euclid_candidates(pts, q, cands, 0));
                assert(measured_by(*metric, lat, lon, stations, cands, dists));
                let with = Seq::new(
                    cands.len(),
                    |i: int| with_distance(stations[cands[i] as int], dists[i]),
                );
                assert(with =~= Seq::empty());
                assert(ranked(stations, cands, dists, k as int) =~= Seq::empty());
            }
            return Vec::new();
        }
        let near = self.euclid_nearest(lat, lon, c);
        let mut cands: Vec<usize> = Vec::new();
        let mut i: usize = 0;
        while i < c
            invariant
                i <= c <= near.len(),
                c <= n,
                n == stations.len(),
                forall|j: int| 0 <= j < near.len() ==> #[trigger] near@[j] < n,
                cands@ == Seq::new(i as nat, |j: int| near@[j] as usize),
            decreases c - i,
        {
            cands.push(near[i] as usize);
            i = i + 1;
            assert(cands@ =~= Seq::new(i as nat, |j: int| near@[j] as usize));
        }
        let ghost taken = cands@;
        proof {
            assert(taken.no_duplicates()) by {
                assert forall|a: int, b: int| 0 <= a < taken.len() && 0 <= b < taken.len() && a
                    != b implies taken[a] != taken[b] by {
                    assert(near@[a] != near@[b]);
                }
            }
            taken.lemma_multiset_has_no_duplicates();
        }
        let sorted = stable_sort(cands);
        let ghost sc = sorted@;
        proof {
            lemma_stable_sorted(taken);
            taken.to_multiset_ensures();
            sc.to_multiset_ensures();
            sc.lemma_multiset_has_no_duplicates_conv();
            assert forall|a: int| 0 <= a < sc.len() implies #[trigger] sc[a] < pts.len() by {
                assert(sc.contains(sc[a]));
                assert(taken.contains(sc[a]));
            }
            assert forall|a: int, b: int| 0 <= a < b < sc.len() implies sc[a] < sc[b] by {
                assert(sc[a].sort_key() <= sc[b].sort_key());
            }
            assert forall|a: int, m: int|
                #![trigger sc[a], pts[m]]
                0 <= a < sc.len() && 0 <= m < pts.len() && !sc.contains(m as usize) implies sq_dist(
                pts[sc[a] as int],
                q,
            ) <= sq_dist(pts[m], q) by {
                assert(sc.contains(sc[a]));
                assert(taken.contains(sc[a]));
                let ja = choose|ja: int| 0 <= ja < taken.len() && taken[ja] == sc[a];
                if taken.contains(m as usize) {
                    assert(taken.to_multiset().count(m as usize) > 0);
                    assert(sc.to_multiset().count(m as usize) > 0);
                }
                assert(!taken.contains(m as usize));
                if near@.contains(m as u64) {
                    let jm = choose|jm: int| 0 <= jm < near.len() && near@[jm] == m as u64;
                    if jm < c {
                        assert(taken[jm] == m as usize);
                    }
                    assert(sq_dist(pts[near@[ja] as int], q) <= sq_dist(pts[near@[jm] as int], q));
                } else {
                    assert(sq_dist(pts[near@[ja] as int], q) <= sq_dist(pts[m], q));
                }
            }
            assert(euclid_candidates(pts, q, sc, c as int));
        }
        let mut with: Vec<StationWithDistance> = Vec::new();
        let ghost mut dists: Seq<u64> = Seq::empty();
        let mut i: usize = 0;
        while i < sorted.len()
            invariant
                sorted@ == sc,
                i <= sc.len(),
                n == stations.len(),
                stations == self.stations@,
                forall|a: int| 0 <= a < sc.len() ==> #[trigger] sc[a] < n,
                forall|a: i64, b: i64, x: i64, y: i64| metric.requires((a, b, x, y)),
                dists.len() == i,
                with@ == Seq::new(
                    i as nat,
                    |j: int| with_distance(stations[sc[j] as int], dists[j]),
                ),
                forall|j: int|
                    0 <= j < i ==> metric.ensures(
                        (
                            lat,
                            lon,
                            #[trigger] stations[sc[j] as int].lat_y,
                            stations[sc[j] as int].lon_x,
                        ),
                        dists[j],
                    ),
            decreases sc.len() - i,
        {
            let idx = sorted[i];
            assert(idx < n);
            let st = &self.stations[idx];
            let d = metric(lat, lon, st.lat_y, st.lon_x);
            with.push(
                StationWithDistance {
                    id: st.id,
                    name: st.name.clone(),
                    lon_x: st.lon_x,
                    lat_y: st.lat_y,
                    distance_m: d,
                    dly_first_date: copy_text(&st.dly_first_date),
                    dly_last_date: copy_text(&st.dly_last_date),
                },
            );
            proof {
                dists = dists.push(d);
            }
            i = i + 1;
            assert(with@ =~= Seq::new(
                i as nat,
                |j: int| with_distance(stations[sc[j] as int], dists[j]),
            ));
        }
        let ghost wv = with@;
        let mut ordered = stable_sort(with);
        proof {
            lemma_stable_sorted(wv);
        }
        if k < ordered.len() {
            ordered.truncate(k);
        }
        proof {
            assert(wv =~= Seq::new(
                sc.len(),
                |j: int| with_distance(stations[sc[j] as int], dists[j]),
            ));
            assert(ordered@ =~= ranked(stations, sc, dists, k as int));
            assert(measured_by(*metric, lat, lon, self.station_list(), sc, dists));
        }
        ordered
    }

    /// The `k` stations nearest to (`lat`, `lon`) by `metric`, nearest first:
    /// `3k` candidates (at most all stations) come from the tree, are
    /// measured by `metric`, and are ranked, ties in index order.
    pub fn find_k_nearest<F: Fn(i64, i64, i64, i64) -> u64>(
        &self,
        lat: i64,
        lon: i64,
        k: usize,
        metric: &F,
    ) -> (r: Vec<StationWithDistance>)
        requires
            self.wf(),
            within_limit(lat as int),
            within_limit(lon as int),
            forall|a: i64, b: i64, x: i64, y: i64| metric.requires((a, b, x, y)),
        ensures
            self.is_k_nearest(lat, lon, k as int, *metric, r@),
            r.len() <= k,
            r.len() <= self.station_list().len(),
            forall|i: int, j: int| 0 <= i <= j < r.len() ==> r[i].distance_m <= r[j].distance_m,
    {
        let n = self.stations.len();
        let c = if k <= n / OVERFETCH_FACTOR {
            OVERFETCH_FACTOR * k
        } else {
            n
        };
        proof {
            assert(c == candidate_count(k as int, n as int)) by (nonlinear_arith)
                requires
                    c == (if k <= n / 3 {
                        3 * k
                    } else {
                        n as int
                    }),
                    n >= 0,
                    k >= 0,
            ;
        }
        let r = self.ranked_nearest(lat, lon, c, k, metric);
        proof {
            lemma_k_nearest_bounds(self, lat, lon, k as int, *metric, r@);
        }
        r
    }

    /// The station nearest to (`lat`, `lon`) by `metric`, among the ten
    /// (at most all) nearest in the tree, the first in index order among
    /// equals; none when there are no stations.
    pub fn find_nearest<F: Fn(i64, i64, i64, i64) -> u64>(
        &self,
        lat: i64,
        lon: i64,
        metric: &F,
    ) -> (r: Option<StationWithDistance>)
        requires
            self.wf(),
            within_limit(lat as int),
            within_limit(lon as int),
            forall|a: i64, b: i64, x: i64, y: i64| metric.requires((a, b, x, y)),
        ensures
            (r is None) <==> self.station_list().len() == 0,
            r matches Some(s) ==> self.is_ranked_nearest(
                lat,
                lon,
                min_len(NEAREST_CANDIDATES as int, self.station_list().len() as int),
                1,
                *metric,
                seq![s],
            ),
    {
        let n = self.stations.len();
        if n == 0 {
            return None;
        }
        let c = if n < NEAREST_CANDIDATES {
            n
        } else {
            NEAREST_CANDIDATES
        };
        let mut v = self.ranked_nearest(lat, lon, c, 1, metric);
        proof {
            let ghost st = self.station_list();
            let (cands, dists) = choose|cands: Seq<usize>, dists: Seq<u64>|
                #![trigger measured_by(*metric, lat, lon, st, cands, dists)]
                euclid_candidates(points_of(st), (lon as int, lat as int), cands, c as int)
                    && measured_by(*metric, lat, lon, st, cands, dists) && v@ == ranked(
                    st,
                    cands,
                    dists,
                    1,
                );
            lemma_ranked_shape(st, cands, dists, 1);
        }
        let ghost vv = v@;
        let s = v.remove(0);
        assert(vv =~= seq![s]);
        Some(s)
    }
}

} // verus!
