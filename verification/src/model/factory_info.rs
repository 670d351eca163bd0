//! Factories: where items are picked up and delivered, through a bounded number of docks.

use crate::model::record::InvalidRecord;
use crate::model::table::{Duplicate, Key, MapType};
use crate::model::text::{
    lemma_text_irreflexive, lemma_text_total, lemma_text_transitive, text_before, text_precedes,
};
use vstd::prelude::*;
use vstd::std_specs::cmp::PartialEqSpecImpl;

verus! {

/// The name of a factory.
#[derive(Debug, Eq, PartialOrd, Ord, Hash)]
pub struct FactoryId(pub String);

impl DeepView for FactoryId {
    type V = Seq<char>;

    open spec fn deep_view(&self) -> Seq<char> {
        self.0@
    }
}

impl View for FactoryId {
    type V = Seq<char>;

    open spec fn view(&self) -> Seq<char> {
        self.0@
    }
}

impl PartialEq for FactoryId {
    fn eq(&self, other: &Self) -> (r: bool) {
        self.0 == other.0
    }
}

impl PartialEqSpecImpl for FactoryId {
    open spec fn obeys_eq_spec() -> bool {
        true
    }

    open spec fn eq_spec(&self, other: &Self) -> bool {
        self.0@ == other.0@
    }
}

impl Clone for FactoryId {
    fn clone(&self) -> (r: Self)
        ensures
            r@ == self@,
    {
        FactoryId(self.0.clone())
    }
}

impl Duplicate for FactoryId {
    fn duplicate(&self) -> (r: Self) {
        FactoryId(self.0.clone())
    }
}

impl Key for FactoryId {
    open spec fn precedes(a: Seq<char>, b: Seq<char>) -> bool {
        text_precedes(a, b)
    }

    proof fn order_laws(a: Seq<char>, b: Seq<char>, c: Seq<char>) {
        lemma_text_irreflexive(a);
        lemma_text_total(a, b);
        if text_precedes(a, b) && text_precedes(b, c) {
            lemma_text_transitive(a, b, c);
        }
    }

    fn same(&self, other: &Self) -> (r: bool) {
        self.0 == other.0
    }

    fn before(&self, other: &Self) -> (r: bool) {
        text_before(self.0.as_str(), other.0.as_str())
    }
}

/// What is known of a factory before the simulation starts.
#[derive(Debug)]
pub struct FactoryInfo {
    pub factory_id: FactoryId,
    /// Degrees east, in millionths of a degree.
    pub longitude: i64,
    /// Degrees north, in millionths of a degree.
    pub latitude: i64,
    /// The number of docks that can serve vehicles at the same time.
    pub port_num: i32,
}

pub struct FactoryInfoView {
    pub factory_id: Seq<char>,
    pub longitude: int,
    pub latitude: int,
    pub port_num: int,
}

impl FactoryInfoView {
    /// The factory has at least one dock.
    pub open spec fn valid(self) -> bool {
        self.port_num >= 1
    }
}

impl DeepView for FactoryInfo {
    type V = FactoryInfoView;

    open spec fn deep_view(&self) -> FactoryInfoView {
        FactoryInfoView {
            factory_id: self.factory_id@,
            longitude: self.longitude as int,
            latitude: self.latitude as int,
            port_num: self.port_num as int,
        }
    }
}

impl View for FactoryInfo {
    type V = FactoryInfoView;

    open spec fn view(&self) -> FactoryInfoView {
        self.deep_view()
    }
}

impl Duplicate for FactoryInfo {
    fn duplicate(&self) -> (r: Self) {
        FactoryInfo {
            factory_id: self.factory_id.duplicate(),
            longitude: self.longitude,
            latitude: self.latitude,
            port_num: self.port_num,
        }
    }
}

impl Clone for FactoryInfo {
    fn clone(&self) -> (r: Self)
        ensures
            r@ == self@,
    {
        self.duplicate()
    }
}

pub type FactoryInfoMap = MapType<FactoryId, FactoryInfo>;

/// The map that the records give when each is put under its factory's name, in
/// the order of the sequence: of two records of one factory the later one stays.
pub open spec fn factories_by_id(records: Seq<FactoryInfoView>) -> Map<Seq<char>, FactoryInfoView>
    decreases records.len(),
{
    if records.len() == 0 {
        Map::empty()
    } else {
        factories_by_id(records.drop_last()).insert(records.last().factory_id, records.last())
    }
}

impl FactoryInfo {
    /// Whether the factory has at least one dock.
    pub fn is_valid(&self) -> (r: bool)
        ensures
            r == self@.valid(),
    {
        self.port_num >= 1
    }

    /// Indexes factory records by name. A record is valid if it has at least one dock.
    #[verifier::loop_isolation(false)]
    pub fn load(records: Vec<FactoryInfo>) -> (r: Result<FactoryInfoMap, InvalidRecord>)
        ensures
            match r {
                Ok(m) => m@ == factories_by_id(records.deep_view()) && forall|j: int|
                    0 <= j < records.len() ==> (#[trigger] records.deep_view()[j]).valid(),
                Err(e) => e.index < records.len() && !records.deep_view()[e.index as int].valid()
                    && forall|j: int|
                    0 <= j < e.index ==> (#[trigger] records.deep_view()[j]).valid(),
            },
    {
        let mut m: FactoryInfoMap = MapType::new();
        let mut i: usize = 0;
        while i < records.len()
            invariant
                i <= records.len(),
                m@ == factories_by_id(records.deep_view().take(i as int)),
                forall|j: int| 0 <= j < i ==> (#[trigger] records.deep_view()[j]).valid(),
            decreases records.len() - i,
        {
            if !records[i].is_valid() {
                return Err(InvalidRecord { index: i });
            }
            let r = records[i].duplicate();
            m.insert(r.factory_id.duplicate(), r);
            proof {
                let s = records.deep_view();
                assert(s.take(i + 1).drop_last() =~= s.take(i as int));
                assert(s.take(i + 1).last() == s[i as int]);
            }
            i += 1;
        }
        assert(records.deep_view().take(i as int) =~= records.deep_view());
        Ok(m)
    }
}

} // verus!
