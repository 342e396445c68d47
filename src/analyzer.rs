//! The recommendation orchestrator: the `k` stations nearest to a point,
//! each station's latest stored seasonal dates, and their averages.

use crate::calendar::{average_date_label, average_ordinal_label, calculate_average_date, opt_view};
use crate::nearest::{lemma_k_nearest_bounds, FinderError, NearestStationFinder, StationWithDistance};
use crate::records::{ClimateData, Station};
use crate::spatial::{within_limit, INDEX_CAPACITY};
use vstd::prelude::*;

verus! {

/// Stations a query considers when it names no count.
pub const DEFAULT_NUM_STATIONS: usize = 5;

/// The station count of a query that names none.
pub fn default_num_stations() -> (r: usize)
    ensures
        r == DEFAULT_NUM_STATIONS,
{
    DEFAULT_NUM_STATIONS
}

/// Recommended switch dates for a point, as "Month Day" labels, with the
/// number of stations consulted.
#[derive(Debug, Clone)]
pub struct Recommendation {
    pub switch_to_summer: Option<String>,
    pub switch_to_winter: Option<String>,
    pub latitude: i64,
    pub longitude: i64,
    pub stations_analyzed: usize,
}

/// The summer switch dates present in the stations' latest records, in order.
pub open spec fn summer_dates(found: Seq<Option<ClimateData>>) -> Seq<String>
    decreases found.len(),
{
    if found.len() == 0 {
        seq![]
    } else {
        let rest = summer_dates(found.drop_last());
        match found.last() {
            Some(d) => match d.switch_to_summer {
                Some(t) => rest.push(t),
                None => rest,
            },
            None => rest,
        }
    }
}

/// The winter switch dates present in the stations' latest records, in order.
pub open spec fn winter_dates(found: Seq<Option<ClimateData>>) -> Seq<String>
    decreases found.len(),
{
    if found.len() == 0 {
        seq![]
    } else {
        let rest = winter_dates(found.drop_last());
        match found.last() {
            Some(d) => match d.switch_to_winter {
                Some(t) => rest.push(t),
                None => rest,
            },
            None => rest,
        }
    }
}

/// Whether `found` holds, for each station of `near`, what `latest` gave
/// for its identifier.
pub open spec fn looked_up<L: Fn(i64) -> Option<ClimateData>>(
    latest: L,
    near: Seq<StationWithDistance>,
    found: Seq<Option<ClimateData>>,
) -> bool {
    &&& found.len() == near.len()
    &&& forall|i: int| 0 <= i < near.len() ==> latest.ensures((#[trigger] near[i].id,), found[i])
}

/// Answers tire-switch queries over one snapshot of the stations.
pub struct Analyzer {
    finder: NearestStationFinder,
}

impl Analyzer {
    /// The resolver over the snapshot.
    pub closed spec fn resolver(&self) -> NearestStationFinder {
        self.finder
    }

    pub closed spec fn wf(&self) -> bool {
        self.finder.wf()
    }

    /// Whether `r` is the recommendation for (`lat`, `lon`) over `k`
    /// stations: the k-nearest answer, each station's latest record as
    /// `latest` gave it, and the averages of their switch dates.
    pub open spec fn is_recommendation<
        F: Fn(i64, i64, i64, i64) -> u64,
        L: Fn(i64) -> Option<ClimateData>,
    >(&self, lat: i64, lon: i64, k: int, metric: F, latest: L, r: Recommendation) -> bool {
        exists|near: Seq<StationWithDistance>, found: Seq<Option<ClimateData>>|
            #![trigger looked_up(latest, near, found)]
            self.resolver().is_k_nearest(lat, lon, k, metric, near) && looked_up(
                latest,
                near,
                found,
            ) && r.latitude == lat && r.longitude == lon && r.stations_analyzed == near.len()
                && opt_view(r.switch_to_summer) == average_date_label(summer_dates(found))
                && opt_view(r.switch_to_winter) == average_date_label(winter_dates(found))
    }

    /// Indexes a snapshot of the stations.
    pub fn new(stations: Vec<Station>) -> (r: Result<Analyzer, FinderError>)
        requires
            stations.len() < INDEX_CAPACITY,
        ensures
            r matches Ok(a) ==> a.wf() && a.resolver().station_list() == stations@,
            r matches Err(e) ==> NearestStationFinder::new_fails_with(stations@, e),
            r is Ok <==> NearestStationFinder::indexable(stations@),
    {
        match NearestStationFinder::new(stations) {
            Ok(finder) => Ok(Analyzer { finder }),
            Err(e) => Err(e),
        }
    }

    /// The resolver over the snapshot.
    pub fn finder(&self) -> (r: &NearestStationFinder)
        ensures
            *r == self.resolver(),
    {
        &self.finder
    }

    /// Recommends switch dates for (`latitude`, `longitude`): the
    /// `num_stations` stations nearest by `metric`, the latest stored record
    /// of each as `latest` gives it (none when it has none or the lookup
    /// fails), and the mean day of their summer and winter switch dates.
    pub fn analyze<F: Fn(i64, i64, i64, i64) -> u64, L: Fn(i64) -> Option<ClimateData>>(
        &self,
        latitude: i64,
        longitude: i64,
        num_stations: usize,
        metric: &F,
        latest: &L,
    ) -> (r: Recommendation)
        requires
            self.wf(),
            within_limit(latitude as int),
            within_limit(longitude as int),
            forall|a: i64, b: i64, x: i64, y: i64| metric.requires((a, b, x, y)),
            forall|id: i64| latest.requires((id,)),
        ensures
            self.is_recommendation(latitude, longitude, num_stations as int, *metric, *latest, r),
    {
        let nearest = self.finder.find_k_nearest(latitude, longitude, num_stations, metric);
        let mut summer: Vec<String> = Vec::new();
        let mut winter: Vec<String> = Vec::new();
        let ghost mut found: Seq<Option<ClimateData>> = Seq::empty();
        let mut i: usize = 0;
        while i < nearest.len()
            invariant
                i <= nearest.len(),
                forall|id: i64| latest.requires((id,)),
                looked_up(*latest, nearest@.take(i as int), found),
                summer@ == summer_dates(found),
                winter@ == winter_dates(found),
            decreases nearest.len() - i,
        {
            let data = latest(nearest[i].id);
            match &data {
                Some(d) => {
                    match &d.switch_to_summer {
                        Some(t) => summer.push(t.clone()),
                        None => {},
                    }
                    match &d.switch_to_winter {
                        Some(t) => winter.push(t.clone()),
                        None => {},
                    }
                },
                None => {},
            }
            proof {
                let f2 = found.push(data);
                assert(f2.drop_last() =~= found);
                assert(nearest@.take(i as int + 1) =~= nearest@.take(i as int).push(nearest@[i as int]));
                found = f2;
            }
            i = i + 1;
        }
        assert(nearest@.take(i as int) =~= nearest@);
        let switch_to_summer = calculate_average_date(summer.as_slice());
        let switch_to_winter = calculate_average_date(winter.as_slice());
        Recommendation {
            switch_to_summer,
            switch_to_winter,
            latitude,
            longitude,
            stations_analyzed: nearest.len(),
        }
    }
}

/// Absence propagates and is never filled in: over no stations a k-nearest
/// answer is empty and a recommendation consults no station and carries no
/// dates; an empty collection of dates averages to no date, in the
/// "Month Day" form and in the "YYYY-MM-DD" form alike.
pub proof fn lemma_absence_propagates<
    F: Fn(i64, i64, i64, i64) -> u64,
    L: Fn(i64) -> Option<ClimateData>,
>(
    analyzer: &Analyzer,
    lat: i64,
    lon: i64,
    k: int,
    metric: F,
    latest: L,
    near: Seq<StationWithDistance>,
    rec: Recommendation,
    dates: Seq<String>,
    days: Seq<i32>,
)
    requires
        k >= 0,
        analyzer.resolver().station_list().len() == 0,
        analyzer.resolver().is_k_nearest(lat, lon, k, metric, near),
        analyzer.is_recommendation(lat, lon, k, metric, latest, rec),
        dates.len() == 0,
        days.len() == 0,
    ensures
        near.len() == 0,
        rec.stations_analyzed == 0,
        rec.switch_to_summer is None,
        rec.switch_to_winter is None,
        average_date_label(dates) is None,
        average_ordinal_label(days) is None,
{
    lemma_k_nearest_bounds(&analyzer.resolver(), lat, lon, k, metric, near);
    let (n2, found) = choose|n2: Seq<StationWithDistance>, found: Seq<Option<ClimateData>>|
        #![trigger looked_up(latest, n2, found)]
        analyzer.resolver().is_k_nearest(lat, lon, k, metric, n2) && looked_up(latest, n2, found)
            && rec.latitude == lat && rec.longitude == lon && rec.stations_analyzed == n2.len()
            && opt_view(rec.switch_to_summer) == average_date_label(summer_dates(found))
            && opt_view(rec.switch_to_winter) == average_date_label(winter_dates(found));
    lemma_k_nearest_bounds(&analyzer.resolver(), lat, lon, k, metric, n2);
    assert(summer_dates(found) =~= Seq::<String>::empty());
    assert(winter_dates(found) =~= Seq::<String>::empty());
    assert(crate::calendar::parsed_days(Seq::<String>::empty()) =~= Seq::<u32>::empty());
}

} // verus!
