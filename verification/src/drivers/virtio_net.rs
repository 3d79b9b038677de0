//! Bringing the network card up as far as its address.

use crate::drivers::pci::{self, ConfigSpace, PciDevice};
use crate::drivers::ports::PortWrite;
use crate::drivers::virtio_queue::{
    self, give_up, InitError, IO_BASE_MAX, PCI_VENDOR_VIRTIO, REG_CONFIG, REG_DRIVER_FEATURES,
};
use vstd::prelude::*;

verus! {

/// Number of the network card.
pub const PCI_DEVICE_VIRTIO_NET: u16 = 0x1000;

/// Feature: the device knows its address.
pub const VIRTIO_NET_F_MAC: u32 = 0x20;

/// The network card, once its address is known.
#[derive(Debug, Clone, Copy)]
pub struct VirtioNet {
    pub mac: Option<[u8; 6]>,
}

/// The network card on the bus. Of several cards the first is taken.
pub fn locate(cs: &ConfigSpace) -> (r: Result<PciDevice, InitError>)
    ensures
        match pci::found(cs@, PCI_VENDOR_VIRTIO, PCI_DEVICE_VIRTIO_NET) {
            None => r matches Err(e) && e is NotFound,
            Some(p) => r matches Ok(d) && pci::place_of(d) == p && pci::describes(cs@, d),
        },
{
    match cs.find(PCI_VENDOR_VIRTIO, PCI_DEVICE_VIRTIO_NET) {
        Some(d) => Ok(d),
        None => Err(InitError::NotFound),
    }
}

/// The write that accepts the feature of an address, or gives up where the device does not offer
/// it; and whether it does.
pub fn accept(io_base: u16, device_features: u32) -> (r: (PortWrite, bool))
    requires
        io_base <= IO_BASE_MAX,
    ensures
        r == (if device_features & VIRTIO_NET_F_MAC == 0 {
            (virtio_queue::failed_write(io_base as int), false)
        } else {
            (
                PortWrite::Long {
                    port: (io_base + REG_DRIVER_FEATURES) as u16,
                    value: VIRTIO_NET_F_MAC,
                },
                true,
            )
        }),
{
    if device_features & VIRTIO_NET_F_MAC == 0 {
        (give_up(io_base), false)
    } else {
        (PortWrite::Long { port: io_base + REG_DRIVER_FEATURES, value: VIRTIO_NET_F_MAC }, true)
    }
}

/// The port of byte `i` of the address.
pub fn mac_port(io_base: u16, i: u16) -> (port: u16)
    requires
        io_base <= IO_BASE_MAX,
        i < 6,
    ensures
        port == io_base + REG_CONFIG + i,
{
    io_base + REG_CONFIG + i
}

impl VirtioNet {
    /// No card yet.
    pub fn new() -> (n: VirtioNet)
        ensures
            n.mac is None,
    {
        VirtioNet { mac: None }
    }

    /// Notes the address that was read.
    pub fn ready(&mut self, mac: [u8; 6])
        ensures
            final(self).mac == Some(mac),
    {
        self.mac = Some(mac);
    }

    /// The address of the card, if it was brought up.
    pub fn mac(&self) -> (r: Option<[u8; 6]>)
        ensures
            r == self.mac,
    {
        self.mac
    }
}

} // verus!
