//! The road network: how far and how long it is from one factory to another.

use crate::model::factory_info::{FactoryId, FactoryInfoMap, FactoryInfoView};
use crate::model::table::{Duplicate, Key, MapType};
use crate::model::text::{
    lemma_text_irreflexive, lemma_text_total, lemma_text_transitive, text_precedes,
};
use vstd::prelude::*;

verus! {

/// One record of the road network.
#[derive(Debug)]
pub struct RouteInfo {
    pub route_code: String,
    pub start_factory_id: FactoryId,
    pub end_factory_id: FactoryId,
    /// In the unit of length that the instance uses.
    pub distance: i64,
    /// Seconds.
    pub time: i64,
}

pub struct RouteInfoView {
    pub route_code: Seq<char>,
    pub start_factory_id: Seq<char>,
    pub end_factory_id: Seq<char>,
    pub distance: int,
    pub time: int,
}

impl DeepView for RouteInfo {
    type V = RouteInfoView;

    open spec fn deep_view(&self) -> RouteInfoView {
        RouteInfoView {
            route_code: self.route_code@,
            start_factory_id: self.start_factory_id@,
            end_factory_id: self.end_factory_id@,
            distance: self.distance as int,
            time: self.time as int,
        }
    }
}

impl View for RouteInfo {
    type V = RouteInfoView;

    open spec fn view(&self) -> RouteInfoView {
        self.deep_view()
    }
}

/// The two ends of a road, in the direction of travel.
pub struct RouteKey {
    pub from: FactoryId,
    pub to: FactoryId,
}

impl DeepView for RouteKey {
    type V = (Seq<char>, Seq<char>);

    open spec fn deep_view(&self) -> (Seq<char>, Seq<char>) {
        (self.from@, self.to@)
    }
}

impl View for RouteKey {
    type V = (Seq<char>, Seq<char>);

    open spec fn view(&self) -> (Seq<char>, Seq<char>) {
        (self.from@, self.to@)
    }
}

impl Duplicate for RouteKey {
    fn duplicate(&self) -> (r: Self) {
        RouteKey { from: self.from.duplicate(), to: self.to.duplicate() }
    }
}

impl Key for RouteKey {
    /// By start, then by end.
    open spec fn precedes(a: (Seq<char>, Seq<char>), b: (Seq<char>, Seq<char>)) -> bool {
        text_precedes(a.0, b.0) || (a.0 == b.0 && text_precedes(a.1, b.1))
    }

    proof fn order_laws(a: (Seq<char>, Seq<char>), b: (Seq<char>, Seq<char>), c: (
        Seq<char>,
        Seq<char>,
    )) {
        lemma_text_irreflexive(a.0);
        lemma_text_irreflexive(a.1);
        lemma_text_irreflexive(b.0);
        lemma_text_total(a.0, b.0);
        lemma_text_total(a.1, b.1);
        if text_precedes(a.0, b.0) && text_precedes(b.0, c.0) {
            lemma_text_transitive(a.0, b.0, c.0);
        }
        if text_precedes(a.1, b.1) && text_precedes(b.1, c.1) {
            lemma_text_transitive(a.1, b.1, c.1);
        }
    }

    fn same(&self, other: &Self) -> (r: bool) {
        self.from.same(&other.from) && self.to.same(&other.to)
    }

    fn before(&self, other: &Self) -> (r: bool) {
        if self.from.before(&other.from) {
            true
        } else if self.from.same(&other.from) {
            self.to.before(&other.to)
        } else {
            false
        }
    }
}

/// What is kept of a road: its code, its length and the time it takes.
#[derive(Debug)]
pub struct SingleRoute {
    pub route_code: String,
    pub distance: i64,
    pub time: i64,
}

pub struct SingleRouteView {
    pub route_code: Seq<char>,
    pub distance: int,
    pub time: int,
}

impl DeepView for SingleRoute {
    type V = SingleRouteView;

    open spec fn deep_view(&self) -> SingleRouteView {
        SingleRouteView {
            route_code: self.route_code@,
            distance: self.distance as int,
            time: self.time as int,
        }
    }
}

impl Duplicate for SingleRoute {
    fn duplicate(&self) -> (r: Self) {
        SingleRoute {
            route_code: self.route_code.clone(),
            distance: self.distance,
            time: self.time,
        }
    }
}

/// The road network, by pair of ends.
pub struct RouteMap {
    map: MapType<RouteKey, SingleRoute>,
}

/// The network that the records give, a later record of one pair of ends
/// taking the place of an earlier one.
pub open spec fn routes_by_ends(records: Seq<RouteInfoView>) -> Map<
    (Seq<char>, Seq<char>),
    SingleRouteView,
>
    decreases records.len(),
{
    if records.len() == 0 {
        Map::empty()
    } else {
        let r = records.last();
        routes_by_ends(records.drop_last()).insert(
            (r.start_factory_id, r.end_factory_id),
            SingleRouteView { route_code: r.route_code, distance: r.distance, time: r.time },
        )
    }
}

/// The time that the network gives from `from` to `to`: none between a
/// factory and itself, and no finite time where no road is recorded.
pub open spec fn transit_time(
    routes: Map<(Seq<char>, Seq<char>), SingleRouteView>,
    from: Seq<char>,
    to: Seq<char>,
) -> Option<int> {
    if from == to {
        Some(0int)
    } else if routes.contains_key((from, to)) {
        Some(routes[(from, to)].time)
    } else {
        None
    }
}

/// The distance that the network gives from `from` to `to`, as `transit_time` gives the time.
pub open spec fn transit_distance(
    routes: Map<(Seq<char>, Seq<char>), SingleRouteView>,
    from: Seq<char>,
    to: Seq<char>,
) -> Option<int> {
    if from == to {
        Some(0int)
    } else if routes.contains_key((from, to)) {
        Some(routes[(from, to)].distance)
    } else {
        None
    }
}

impl View for RouteMap {
    type V = Map<(Seq<char>, Seq<char>), SingleRouteView>;

    closed spec fn view(&self) -> Map<(Seq<char>, Seq<char>), SingleRouteView> {
        self.map@
    }
}

impl DeepView for RouteMap {
    type V = Map<(Seq<char>, Seq<char>), SingleRouteView>;

    open spec fn deep_view(&self) -> Map<(Seq<char>, Seq<char>), SingleRouteView> {
        self@
    }
}

impl Duplicate for RouteMap {
    fn duplicate(&self) -> (r: Self) {
        RouteMap { map: self.map.duplicate() }
    }
}

impl RouteMap {
    /// The network of the given records.
    #[verifier::loop_isolation(false)]
    pub fn from(value: Vec<RouteInfo>) -> (r: RouteMap)
        ensures
            r@ == routes_by_ends(value.deep_view()),
    {
        let mut map: MapType<RouteKey, SingleRoute> = MapType::new();
        let mut i: usize = 0;
        while i < value.len()
            invariant
                i <= value.len(),
                map@ == routes_by_ends(value.deep_view().take(i as int)),
            decreases value.len() - i,
        {
            let r = &value[i];
            map.insert(
                RouteKey {
                    from: r.start_factory_id.duplicate(),
                    to: r.end_factory_id.duplicate(),
                },
                SingleRoute {
                    route_code: r.route_code.clone(),
                    distance: r.distance,
                    time: r.time,
                },
            );
            proof {
                let s = value.deep_view();
                assert(s.take(i + 1).drop_last() =~= s.take(i as int));
                assert(s.take(i + 1).last() == s[i as int]);
            }
            i += 1;
        }
        assert(value.deep_view().take(i as int) =~= value.deep_view());
        RouteMap { map }
    }

    /// The time from `from` to `to` in seconds; `None` where no road is recorded.
    pub fn query_time(&self, from: FactoryId, to: FactoryId) -> (t: Option<i64>)
        ensures
            t.is_some() == transit_time(self@, from@, to@).is_some(),
            t.is_some() ==> t.unwrap() == transit_time(self@, from@, to@).unwrap(),
    {
        if from.same(&to) {
            return Some(0);
        }
        let key = RouteKey { from, to };
        match self.map.get(&key) {
            Some(r) => Some(r.time),
            None => None,
        }
    }

    /// The distance from `from` to `to`; `None` where no road is recorded.
    pub fn query_distance(&self, from: FactoryId, to: FactoryId) -> (d: Option<i64>)
        ensures
            d.is_some() == transit_distance(self@, from@, to@).is_some(),
            d.is_some() ==> d.unwrap() == transit_distance(self@, from@, to@).unwrap(),
    {
        if from.same(&to) {
            return Some(0);
        }
        let key = RouteKey { from, to };
        match self.map.get(&key) {
            Some(r) => Some(r.distance),
            None => None,
        }
    }

    /// Whether every recorded road leads from one of the factories to one of them.
    #[verifier::loop_isolation(false)]
    pub fn ends_within(&self, factories: &FactoryInfoMap) -> (r: bool)
        ensures
            r == roads_placed(self@, factories@),
    {
        let n: usize = self.map.len();
        proof {
            self.map.lemma_wf();
        }
        let mut i: usize = 0;
        while i < n
            invariant
                i <= n,
                forall|j: int|
                    0 <= j < i ==> factories@.contains_key((#[trigger] self.map.keys()[j]).0)
                        && factories@.contains_key(self.map.keys()[j].1),
            decreases n - i,
        {
            let ends = self.map.key_at(i);
            if !factories.contains_key(&ends.from) || !factories.contains_key(&ends.to) {
                assert(self@.contains_key(self.map.keys()[i as int]));
                return false;
            }
            i += 1;
        }
        assert forall|k: (Seq<char>, Seq<char>)| #[trigger] self@.contains_key(k) implies factories@.contains_key(
            k.0,
        ) && factories@.contains_key(k.1) by {
            let j = self.map.keys().index_of(k);
            assert(self.map.keys()[j] == k);
        }
        true
    }

    /// Whether no recorded road has a negative time or a negative length.
    #[verifier::loop_isolation(false)]
    pub fn is_valid(&self) -> (r: bool)
        ensures
            r == routes_valid(self@),
    {
        let n: usize = self.map.len();
        proof {
            self.map.lemma_wf();
        }
        let mut i: usize = 0;
        while i < n
            invariant
                i <= n,
                forall|j: int| 0 <= j < i ==> self.map.values()[j].time >= 0 && self.map.values()[j].distance >= 0,
            decreases n - i,
        {
            let r = self.map.value_at(i);
            if r.time < 0 || r.distance < 0 {
                assert(self@.contains_key(self.map.keys()[i as int]));
                return false;
            }
            i += 1;
        }
        assert forall|k: (Seq<char>, Seq<char>)| self@.contains_key(k) implies self@[k].time >= 0
            && self@[k].distance >= 0 by {
            let j = self.map.keys().index_of(k);
            assert(self.map.keys()[j] == k);
        }
        true
    }
}

/// Every recorded road leads from a factory of `factories` to a factory of `factories`.
pub open spec fn roads_placed(
    routes: Map<(Seq<char>, Seq<char>), SingleRouteView>,
    factories: Map<Seq<char>, FactoryInfoView>,
) -> bool {
    forall|k: (Seq<char>, Seq<char>)| #[trigger]
        routes.contains_key(k) ==> factories.contains_key(k.0) && factories.contains_key(k.1)
}

/// No recorded road has a negative time or a negative length.
pub open spec fn routes_valid(routes: Map<(Seq<char>, Seq<char>), SingleRouteView>) -> bool {
    forall|k: (Seq<char>, Seq<char>)| #[trigger]
        routes.contains_key(k) ==> routes[k].time >= 0 && routes[k].distance >= 0
}

} // verus!
