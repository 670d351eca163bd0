//! Vehicles and their capacity.

use crate::model::record::InvalidRecord;
use crate::model::table::{Duplicate, Key, MapType};
use crate::model::text::{
    lemma_text_irreflexive, lemma_text_total, lemma_text_transitive, text_before, text_precedes,
};
use vstd::prelude::*;
use vstd::std_specs::cmp::PartialEqSpecImpl;

verus! {

/// The name of a vehicle.
#[derive(Debug, Eq, PartialOrd, Ord, Hash)]
pub struct VehicleId(pub String);

impl DeepView for VehicleId {
    type V = Seq<char>;

    open spec fn deep_view(&self) -> Seq<char> {
        self.0@
    }
}

impl View for VehicleId {
    type V = Seq<char>;

    open spec fn view(&self) -> Seq<char> {
        self.0@
    }
}

impl PartialEq for VehicleId {
    fn eq(&self, other: &Self) -> (r: bool) {
        self.0 == other.0
    }
}

impl PartialEqSpecImpl for VehicleId {
    open spec fn obeys_eq_spec() -> bool {
        true
    }

    open spec fn eq_spec(&self, other: &Self) -> bool {
        self.0@ == other.0@
    }
}

impl Clone for VehicleId {
    fn clone(&self) -> (r: Self)
        ensures
            r@ == self@,
    {
        VehicleId(self.0.clone())
    }
}

impl Duplicate for VehicleId {
    fn duplicate(&self) -> (r: Self) {
        VehicleId(self.0.clone())
    }
}

impl Key for VehicleId {
    open spec fn precedes(a: Seq<char>, b: Seq<char>) -> bool {
        text_precedes(a, b)
    }

    proof fn order_laws(a: Seq<char>, b: Seq<char>, c: Seq<char>) {
        lemma_text_irreflexive(a);
        lemma_text_total(a, b);
        if text_precedes(a, b) && text_precedes(b, c) {
            lemma_text_transitive(a, b, c);
        }
    }

    fn same(&self, other: &Self) -> (r: bool) {
        self.0 == other.0
    }

    fn before(&self, other: &Self) -> (r: bool) {
        text_before(self.0.as_str(), other.0.as_str())
    }
}

/// The number of boxes that one standard pallet stands for.
pub const BOXES_PER_PALLET: i64 = 4;

/// What is known of a vehicle before the simulation starts.
#[derive(Debug)]
pub struct VehicleInfo {
    pub car_num: VehicleId,
    capacity: i32,
    pub operation_time: i32,
    pub gps_id: String,
}

pub struct VehicleInfoView {
    pub car_num: Seq<char>,
    /// The declared capacity, in standard pallets.
    pub pallets: int,
    pub operation_time: int,
    pub gps_id: Seq<char>,
}

impl VehicleInfoView {
    /// The capacity in boxes, the unit in which demand is counted.
    pub open spec fn capacity(self) -> int {
        4 * self.pallets
    }

    /// The vehicle holds at least one pallet.
    pub open spec fn valid(self) -> bool {
        self.pallets >= 1
    }
}

impl DeepView for VehicleInfo {
    type V = VehicleInfoView;

    closed spec fn deep_view(&self) -> VehicleInfoView {
        VehicleInfoView {
            car_num: self.car_num@,
            pallets: self.capacity as int,
            operation_time: self.operation_time as int,
            gps_id: self.gps_id@,
        }
    }
}

impl View for VehicleInfo {
    type V = VehicleInfoView;

    open spec fn view(&self) -> VehicleInfoView {
        self.deep_view()
    }
}

impl Duplicate for VehicleInfo {
    fn duplicate(&self) -> (r: Self) {
        VehicleInfo {
            car_num: self.car_num.duplicate(),
            capacity: self.capacity,
            operation_time: self.operation_time,
            gps_id: self.gps_id.clone(),
        }
    }
}

impl Clone for VehicleInfo {
    fn clone(&self) -> (r: Self)
        ensures
            r@ == self@,
    {
        self.duplicate()
    }
}

pub type VehicleInfoMap = MapType<VehicleId, VehicleInfo>;

/// The map that the records give when each is put under its vehicle's name, in
/// the order of the sequence: of two records of one vehicle the later one stays.
pub open spec fn vehicles_by_id(records: Seq<VehicleInfoView>) -> Map<Seq<char>, VehicleInfoView>
    decreases records.len(),
{
    if records.len() == 0 {
        Map::empty()
    } else {
        vehicles_by_id(records.drop_last()).insert(records.last().car_num, records.last())
    }
}

impl VehicleInfo {
    /// A vehicle whose capacity is `capacity` standard pallets.
    pub fn new(car_num: VehicleId, capacity: i32, operation_time: i32, gps_id: String) -> (r: Self)
        ensures
            r@ == (VehicleInfoView {
                car_num: car_num@,
                pallets: capacity as int,
                operation_time: operation_time as int,
                gps_id: gps_id@,
            }),
    {
        VehicleInfo { car_num, capacity, operation_time, gps_id }
    }

    /// Whether the vehicle holds at least one pallet.
    pub fn is_valid(&self) -> (r: bool)
        ensures
            r == self@.valid(),
    {
        self.capacity >= 1
    }

    /// The vehicle's name.
    pub fn id(&self) -> (r: &VehicleId)
        ensures
            r@ == self@.car_num,
    {
        &self.car_num
    }

    /// Indexes vehicle records by name. A record is valid if it holds at least one pallet.
    #[verifier::loop_isolation(false)]
    pub fn load(records: Vec<VehicleInfo>) -> (r: Result<VehicleInfoMap, InvalidRecord>)
        ensures
            match r {
                Ok(m) => m@ == vehicles_by_id(records.deep_view()) && forall|j: int|
                    0 <= j < records.len() ==> (#[trigger] records.deep_view()[j]).valid(),
                Err(e) => e.index < records.len() && !records.deep_view()[e.index as int].valid()
                    && forall|j: int|
                    0 <= j < e.index ==> (#[trigger] records.deep_view()[j]).valid(),
            },
    {
        let mut m: VehicleInfoMap = MapType::new();
        let mut i: usize = 0;
        while i < records.len()
            invariant
                i <= records.len(),
                m@ == vehicles_by_id(records.deep_view().take(i as int)),
                forall|j: int| 0 <= j < i ==> (#[trigger] records.deep_view()[j]).valid(),
            decreases records.len() - i,
        {
            if !records[i].is_valid() {
                return Err(InvalidRecord { index: i });
            }
            let r = records[i].duplicate();
            m.insert(r.car_num.duplicate(), r);
            proof {
                let s = records.deep_view();
                assert(s.take(i + 1).drop_last() =~= s.take(i as int));
                assert(s.take(i + 1).last() == s[i as int]);
            }
            i += 1;
        }
        assert(records.deep_view().take(i as int) =~= records.deep_view());
        Ok(m)
    }

    /// The capacity in boxes: four times the declared number of pallets.
    pub fn capacity(&self) -> (c: i64)
        ensures
            c == self@.capacity(),
            c == 4 * self@.pallets,
    {
        let pallets: i64 = self.capacity as i64;
        pallets * BOXES_PER_PALLET
    }
}

} // verus!
