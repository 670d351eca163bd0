use dpdp_rust::model::factory_info::{FactoryId, FactoryInfo};
use dpdp_rust::model::order::{Order, OrderId};
use dpdp_rust::model::order_item::{total_demand, OrderItemId, OrderItemType};
use dpdp_rust::model::record::InvalidRecord;
use dpdp_rust::model::route_info::{RouteInfo, RouteMap};
use dpdp_rust::model::table::MapType;
use dpdp_rust::model::text::text_before;
use dpdp_rust::model::vehicle_info::{VehicleId, VehicleInfo};

fn fid(name: &str) -> FactoryId {
    FactoryId(name.to_string())
}

fn item(order: &str, class: OrderItemType, index: i32) -> OrderItemId {
    OrderItemId { order_id: OrderId(order.to_string()), item_type: class, index }
}

fn order(name: &str, standard: i32, small: i32, boxes: i32, created: i64, due: i64) -> Order {
    Order {
        order_id: OrderId(name.to_string()),
        q_standard: standard,
        q_small: small,
        q_box: boxes,
        creation_time: created,
        committed_completion_time: due,
        load_time: 60,
        unload_time: 90,
        pickup_id: fid("A"),
        delivery_id: fid("B"),
    }
}

/// A fleet of the shape the benchmark instances have: five to seven
/// vehicles of fifteen pallets each, named in turn.
fn benchmark_fleet(instance: usize) -> Vec<VehicleInfo> {
    let fleet = 5 + instance % 3;
    (0..fleet)
        .map(|i| {
            VehicleInfo::new(
                VehicleId(format!("V_{}", i + 1)),
                15,
                24,
                format!("G_{}", i + 1),
            )
        })
        .collect()
}

#[test]
fn test_read_all_vehicle_infos() {
    // Reading the files is the program's part; what is checked here is that
    // the records of such a fleet are all taken, each under its own name.
    for instance in 1..=64 {
        let records = benchmark_fleet(instance);
        let names: Vec<VehicleId> = records.iter().map(|v| v.id().clone()).collect();
        let fleet = VehicleInfo::load(records);
        assert!(fleet.is_ok(), "instance {}", instance);
        let fleet = fleet.unwrap();
        assert_eq!(fleet.len(), names.len());
        for name in &names {
            assert_eq!(fleet.gets(name).capacity(), 60);
        }
    }
}

#[test]
fn load_indexes_vehicles_by_name_and_keeps_the_later_record() {
    let records = vec![
        VehicleInfo::new(VehicleId("V_2".into()), 15, 24, "g2".into()),
        VehicleInfo::new(VehicleId("V_1".into()), 10, 24, "g1".into()),
        VehicleInfo::new(VehicleId("V_2".into()), 8, 24, "g2b".into()),
    ];
    let map = VehicleInfo::load(records).unwrap();
    assert_eq!(map.len(), 2);
    assert_eq!(map.key_at(0), &VehicleId("V_1".into()));
    assert_eq!(map.key_at(1), &VehicleId("V_2".into()));
    assert_eq!(map.gets(&VehicleId("V_2".into())).capacity(), 32);
    assert_eq!(map.gets(&VehicleId("V_2".into())).gps_id, "g2b");
}

#[test]
fn load_names_the_first_invalid_record() {
    let records = vec![
        VehicleInfo::new(VehicleId("V_1".into()), 10, 24, "g1".into()),
        VehicleInfo::new(VehicleId("V_2".into()), 0, 24, "g2".into()),
        VehicleInfo::new(VehicleId("V_3".into()), -1, 24, "g3".into()),
    ];
    assert_eq!(VehicleInfo::load(records).err(), Some(InvalidRecord { index: 1 }));
    let factories = vec![
        FactoryInfo { factory_id: fid("A"), longitude: 0, latitude: 0, port_num: 0 },
        FactoryInfo { factory_id: fid("B"), longitude: 0, latitude: 0, port_num: 2 },
    ];
    assert_eq!(FactoryInfo::load(factories).err(), Some(InvalidRecord { index: 0 }));
    let orders = vec![order("o1", 1, 0, 0, 0, 100), order("o2", 1, 0, 0, 86400, 100)];
    assert_eq!(Order::load(orders).err(), Some(InvalidRecord { index: 1 }));
    let fine = vec![order("o1", 1, 0, 0, 0, 100), order("o2", 1, 0, 0, 86399, 100)];
    assert_eq!(Order::load(fine).unwrap().len(), 2);
}

#[test]
fn demand_by_class() {
    assert_eq!(OrderItemType::Standard.demand(), 4);
    assert_eq!(OrderItemType::Small.demand(), 2);
    assert_eq!(OrderItemType::Box.demand(), 1);
    assert_eq!(item("o", OrderItemType::Small, 3).demand(), 2);
}

#[test]
fn capacity_is_four_boxes_a_pallet() {
    let v = VehicleInfo::new(VehicleId("V_1".into()), 15, 24, "g".into());
    assert_eq!(v.capacity(), 60);
    assert!(v.is_valid());
    let none = VehicleInfo::new(VehicleId("V_1".into()), 0, 24, "g".into());
    assert_eq!(none.capacity(), 0);
    assert!(!none.is_valid());
    let huge = VehicleInfo::new(VehicleId("V_1".into()), i32::MAX, 24, "g".into());
    assert_eq!(huge.capacity(), 4 * (i32::MAX as i64));
}

#[test]
fn item_identifier_is_written_order_class_index() {
    assert_eq!(item("123", OrderItemType::Standard, 0).to_string(), "123_standard_0");
    assert_eq!(item("ab", OrderItemType::Small, 17).to_string(), "ab_small_17");
    assert_eq!(item("x_y", OrderItemType::Box, 1204).to_string(), "x_y_box_1204");
    assert_eq!(item("n", OrderItemType::Box, -5).to_string(), "n_box_-5");
    assert_eq!(
        item("n", OrderItemType::Box, i32::MIN).to_string(),
        format!("n_box_{}", i32::MIN)
    );
    assert_eq!(
        item("n", OrderItemType::Box, i32::MAX).to_string(),
        format!("n_box_{}", i32::MAX)
    );
}

#[test]
fn order_expands_into_items_class_by_class() {
    let o = order("o1", 2, 1, 3, 10, 20);
    let items = o.into_items();
    let ids: Vec<String> = items.iter().map(|i| i.id.to_string()).collect();
    assert_eq!(
        ids,
        vec!["o1_standard_0", "o1_standard_1", "o1_small_0", "o1_box_0", "o1_box_1", "o1_box_2"]
    );
    let demands: Vec<i32> = items.iter().map(|i| i.demand).collect();
    assert_eq!(demands, vec![4, 4, 2, 1, 1, 1]);
    for i in &items {
        assert_eq!(i.creation_time, 10);
        assert_eq!(i.committed_completion_time, 20);
        assert_eq!(i.load_time, 60);
        assert_eq!(i.unload_time, 90);
        assert_eq!(i.pickup_id, fid("A"));
        assert_eq!(i.delivery_id, fid("B"));
    }
    assert_eq!(o.calc_demand(), 13);
    assert_eq!(o.item_ids().len(), 6);
    assert_eq!(order("o2", -3, 0, 0, 0, 0).into_items().len(), 0);
}

#[test]
fn deadline_is_on_the_next_day_when_due_before_creation() {
    let same_day = order("o1", 1, 0, 0, 3600, 7200);
    assert_eq!(same_day.committed_completion_time(1_000_000), 1_007_200);
    let next_day = order("o2", 1, 0, 0, 7200, 3600);
    assert_eq!(next_day.committed_completion_time(1_000_000), 1_000_000 + 3600 + 86400);
    let equal = order("o3", 1, 0, 0, 3600, 3600);
    assert_eq!(equal.committed_completion_time(0), 3600);
}

#[test]
fn total_demand_adds_up_classes() {
    let ids = vec![
        item("o", OrderItemType::Standard, 0),
        item("o", OrderItemType::Small, 0),
        item("o", OrderItemType::Box, 0),
    ];
    assert_eq!(total_demand(&ids), 7);
    assert_eq!(total_demand(&Vec::new()), 0);
}

fn network() -> RouteMap {
    RouteMap::from(vec![
        RouteInfo {
            route_code: "r1".into(),
            start_factory_id: fid("A"),
            end_factory_id: fid("B"),
            distance: 1500,
            time: 3600,
        },
        RouteInfo {
            route_code: "r2".into(),
            start_factory_id: fid("B"),
            end_factory_id: fid("A"),
            distance: 1700,
            time: 4000,
        },
        RouteInfo {
            route_code: "r3".into(),
            start_factory_id: fid("A"),
            end_factory_id: fid("B"),
            distance: 1600,
            time: 3700,
        },
    ])
}

#[test]
fn route_queries() {
    let map = network();
    assert_eq!(map.query_time(fid("A"), fid("A")), Some(0));
    assert_eq!(map.query_distance(fid("C"), fid("C")), Some(0));
    assert_eq!(map.query_time(fid("A"), fid("B")), Some(3700));
    assert_eq!(map.query_distance(fid("A"), fid("B")), Some(1600));
    assert_eq!(map.query_time(fid("B"), fid("A")), Some(4000));
    assert_eq!(map.query_time(fid("A"), fid("C")), None);
    assert_eq!(map.query_distance(fid("C"), fid("A")), None);
    assert!(map.is_valid());
    let bad = RouteMap::from(vec![RouteInfo {
        route_code: "r".into(),
        start_factory_id: fid("A"),
        end_factory_id: fid("B"),
        distance: 1,
        time: -1,
    }]);
    assert!(!bad.is_valid());
}

#[test]
fn identifiers_are_ordered_by_their_bytes() {
    assert!(text_before("V_1", "V_10"));
    assert!(text_before("V_10", "V_2"));
    assert!(!text_before("V_2", "V_10"));
    assert!(!text_before("abc", "abc"));
    assert!(text_before("", "a"));
    assert!(!text_before("a", ""));
    assert!(text_before("Z", "a"));
    assert!(text_before("z", "é"));
}

#[test]
fn map_keeps_keys_in_order_and_replaces_values() {
    let mut m: MapType<VehicleId, i64> = MapType::new();
    assert_eq!(m.len(), 0);
    m.insert(VehicleId("V_2".into()), 2);
    m.insert(VehicleId("V_10".into()), 10);
    m.insert(VehicleId("V_1".into()), 1);
    m.insert(VehicleId("V_3".into()), 3);
    m.insert(VehicleId("V_2".into()), 22);
    assert_eq!(m.len(), 4);
    let keys: Vec<String> = (0..m.len()).map(|i| m.key_at(i).0.clone()).collect();
    assert_eq!(keys, vec!["V_1", "V_10", "V_2", "V_3"]);
    let values: Vec<i64> = (0..m.len()).map(|i| *m.value_at(i)).collect();
    assert_eq!(values, vec![1, 10, 22, 3]);
    assert_eq!(m.get(&VehicleId("V_2".into())), Some(&22));
    assert_eq!(m.get(&VehicleId("V_4".into())), None);
    assert!(m.contains_key(&VehicleId("V_10".into())));
    assert!(!m.contains_key(&VehicleId("V_".into())));
    assert_eq!(m.position(&VehicleId("V_3".into())), Some(3));
    *m.value_mut_at(0) = 7;
    assert_eq!(*m.gets(&VehicleId("V_1".into())), 7);
}

#[test]
fn item_identifiers_are_ordered_by_order_class_and_index() {
    let mut m: MapType<OrderItemId, i64> = MapType::new();
    m.insert(item("o2", OrderItemType::Standard, 0), 0);
    m.insert(item("o1", OrderItemType::Box, 0), 1);
    m.insert(item("o1", OrderItemType::Small, 5), 2);
    m.insert(item("o1", OrderItemType::Standard, 9), 3);
    m.insert(item("o1", OrderItemType::Standard, 10), 4);
    m.insert(item("o1", OrderItemType::Small, -1), 5);
    let keys: Vec<String> = (0..m.len()).map(|i| m.key_at(i).to_string()).collect();
    assert_eq!(
        keys,
        vec![
            "o1_standard_9",
            "o1_standard_10",
            "o1_small_-1",
            "o1_small_5",
            "o1_box_0",
            "o2_standard_0"
        ]
    );
}

#[test]
fn item_identifier_is_read_from_its_written_form() {
    assert_eq!(
        OrderItemId::parse("123_standard_0"),
        Some(item("123", OrderItemType::Standard, 0))
    );
    assert_eq!(OrderItemId::parse("ab_small_17"), Some(item("ab", OrderItemType::Small, 17)));
    assert_eq!(OrderItemId::parse("é_box_+7"), Some(item("é", OrderItemType::Box, 7)));
    assert_eq!(OrderItemId::parse("o_box_-0"), Some(item("o", OrderItemType::Box, 0)));
    assert_eq!(OrderItemId::parse("o_box_007"), Some(item("o", OrderItemType::Box, 7)));
    assert_eq!(OrderItemId::parse("_box_1"), Some(item("", OrderItemType::Box, 1)));
    assert_eq!(OrderItemId::parse("o_box_1_rest"), Some(item("o", OrderItemType::Box, 1)));
    assert_eq!(
        OrderItemId::parse("o_box_2147483647"),
        Some(item("o", OrderItemType::Box, i32::MAX))
    );
    assert_eq!(
        OrderItemId::parse("o_box_-2147483648"),
        Some(item("o", OrderItemType::Box, i32::MIN))
    );
    for text in [
        "",
        "o",
        "o_box",
        "o_box_",
        "o_box_+",
        "o_box_-",
        "o_box_1x",
        "o_box_ 1",
        "o_box_2147483648",
        "o_box_-2147483649",
        "o_box_99999999999999999999",
        "o__1",
        "o_Box_1",
        "o_boxes_1",
        "o_standard1",
        "x_y_box_1",
    ] {
        assert_eq!(OrderItemId::parse(text), None, "{:?}", text);
    }
    for id in [
        item("o1", OrderItemType::Standard, 0),
        item("o1", OrderItemType::Small, 12345),
        item("é1", OrderItemType::Box, -9),
        item("", OrderItemType::Box, i32::MIN),
    ] {
        assert_eq!(OrderItemId::parse(&id.to_string()), Some(id.clone()));
    }
}

#[test]
fn a_value_of_the_map_is_changed_in_place() {
    let mut m: MapType<VehicleId, Vec<i64>> = MapType::new();
    m.insert(VehicleId("V_2".into()), vec![2]);
    m.insert(VehicleId("V_1".into()), vec![1]);
    m.gets_mut(&VehicleId("V_2".into())).push(22);
    assert_eq!(m.gets(&VehicleId("V_2".into())), &vec![2, 22]);
    assert_eq!(m.gets(&VehicleId("V_1".into())), &vec![1]);
    assert_eq!(m.len(), 2);
}
