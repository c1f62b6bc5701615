//! The link metric: a per-transport weight plus a signal penalty on
//! Bluetooth links.

use vstd::prelude::*;

use crate::sphere::ConnectionModule;

verus! {

/// The weight of one hop over a transport.
pub open spec fn spec_transport_weight(transport: ConnectionModule) -> u16 {
    match transport {
        ConnectionModule::Ble1m => 50,
        ConnectionModule::BleCoded => 70,
        ConnectionModule::Lan => 10,
        ConnectionModule::Local => 0,
        ConnectionModule::Internet => 15,
        ConnectionModule::NoModule => 0xffff,
    }
}

/// The penalty for a weak signal: only Bluetooth links with a measured
/// RSSI pay one, in buckets of -60, -75 and -85 dBm.
pub open spec fn spec_rssi_penalty(t: ConnectionModule, rssi_dbm: Option<i8>) -> u16 {
    match (t, rssi_dbm) {
        (ConnectionModule::Ble1m, Some(rssi)) | (ConnectionModule::BleCoded, Some(rssi)) => {
            if rssi >= -60 {
                0
            } else if rssi >= -75 {
                5
            } else if rssi >= -85 {
                10
            } else {
                20
            }
        },
        _ => 0,
    }
}

/// The cost of one hop: weight plus penalty, capped at `u16::MAX`.
pub open spec fn spec_hop_cost(transport: ConnectionModule, rssi_dbm: Option<i8>) -> u16 {
    let sum = spec_transport_weight(transport) + spec_rssi_penalty(transport, rssi_dbm);
    if sum > 0xffff {
        0xffff
    } else {
        sum as u16
    }
}

/// The weight of one hop over a transport.
pub fn transport_weight(transport: ConnectionModule) -> (w: u16)
    ensures
        w == spec_transport_weight(transport),
{
    match transport {
        ConnectionModule::Ble1m => 50,
        ConnectionModule::BleCoded => 70,
        ConnectionModule::Lan => 10,
        ConnectionModule::Local => 0,
        ConnectionModule::Internet => 15,
        ConnectionModule::NoModule => u16::MAX,
    }
}

/// The signal penalty of a hop.
pub fn rssi_penalty(t: ConnectionModule, rssi_dbm: Option<i8>) -> (p: u16)
    ensures
        p == spec_rssi_penalty(t, rssi_dbm),
{
    let is_ble = match t {
        ConnectionModule::Ble1m => true,
        ConnectionModule::BleCoded => true,
        _ => false,
    };
    if !is_ble {
        return 0;
    }
    let rssi = match rssi_dbm {
        Some(r) => r,
        None => return 0,
    };
    if rssi >= -60 {
        0
    } else if rssi >= -75 {
        5
    } else if rssi >= -85 {
        10
    } else {
        20
    }
}

/// The cost of one hop over a transport at a given signal strength.
pub fn hop_cost(transport: ConnectionModule, rssi_dbm: Option<i8>) -> (c: u16)
    ensures
        c == spec_hop_cost(transport, rssi_dbm),
{
    transport_weight(transport).saturating_add(rssi_penalty(transport, rssi_dbm))
}

/// A hop never costs less than the weight of its transport.
pub proof fn lemma_hop_cost_at_least_weight(transport: ConnectionModule, rssi_dbm: Option<i8>)
    ensures
        spec_hop_cost(transport, rssi_dbm) >= spec_transport_weight(transport),
        spec_hop_cost(transport, rssi_dbm) == spec_transport_weight(transport) + spec_rssi_penalty(
            transport,
            rssi_dbm,
        ) || spec_hop_cost(transport, rssi_dbm) == 0xffff,
{
}

} // verus!
