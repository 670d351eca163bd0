//! Reference data of an instance, and the ordered map that holds it.

pub mod factory_info;
pub mod item_text;
pub mod order;
pub mod order_item;
pub mod record;
pub mod route_info;
pub mod table;
pub mod text;
pub mod vehicle_info;
