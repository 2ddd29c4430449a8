//! Decision logic of an mDNS discovery handler: request intake, translation
//! of resolved services into device records, and the per-session device
//! cache that turns browse events into published device lists.
mod assoc;
mod config;
mod record;
mod session;
mod text;

pub use assoc::{pairs_map, keys_unique};
pub use config::{
    normalize_service_name, MdnsDiscoveryDetails, DiscoverError, service_name_for_request,
    check_browse_result, normalized, normalization_is_idempotent,
};
pub use record::{
    PropertyMap, ServiceRecord, DeviceRecord, translate_record, device_properties,
    property_pairs, address_pairs, attribute_pairs, address_key, attribute_key,
    non_ascii_attribute_keys_never_appear, translation_is_deterministic,
};
pub use session::{
    DeviceCache, BrowseEvent, SessionAction, DiscoverySession, CacheView, publishes,
    apply_event, apply_events, event_instance, last_event_resolves,
    cache_holds_last_resolved, unrelated_events_commute,
};
pub use text::{ascii_upper, ascii_uppercased, spaces_to_underscores, decimal};
