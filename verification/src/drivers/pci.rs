//! Devices on the PCI bus: what their configuration registers say of them.

use std::collections::BTreeMap;
use vstd::prelude::*;

verus! {

/// Vendor of a function that is not there.
pub const VENDOR_NONE: u16 = 0xFFFF;

/// Bit of the header type of a device with more than one function.
pub const HEADER_MULTIFUNCTION: u8 = 0x80;

/// Number of configuration registers that are looked at, of four bytes each.
pub const CONFIG_WORDS: usize = 16;

/// Offset of the command register.
pub const PCI_COMMAND: u8 = 0x04;

/// Bits of the command register: the device answers on its ports, and may use memory itself.
pub const PCI_CMD_ENABLE: u32 = 5;

/// A function of a device.
#[derive(Debug, Clone, Copy)]
pub struct PciDevice {
    pub bus: u8,
    pub slot: u8,
    pub func: u8,
    pub vendor_id: u16,
    pub device_id: u16,
    pub class: u8,
    pub subclass: u8,
    pub prog_if: u8,
    pub header_type: u8,
    /// Base address registers.
    pub bars: [u32; 6],
}

/// What a base address register describes.
#[allow(inconsistent_fields)]
#[derive(Debug, Clone, Copy, PartialEq, Eq, Structural)]
pub enum Bar {
    /// Nothing.
    Absent,
    /// Ports.
    Io { base: u32 },
    /// Memory.
    Mem { base: u64, prefetchable: bool, is_64: bool },
}

/// The configuration registers of all functions on the bus. A function that is not there reads as
/// ones.
pub struct ConfigSpace {
    /// Registers by number of the function.
    pub functions: BTreeMap<u64, Vec<u32>>,
}

impl View for ConfigSpace {
    type V = Map<u64, Seq<u32>>;

    open spec fn view(&self) -> Map<u64, Seq<u32>> {
        self.functions@.map_values(|v: Vec<u32>| v@)
    }
}

/// The number of a function.
pub open spec fn function_key(bus: u8, slot: u8, func: u8) -> u64 {
    (bus * 256 + slot * 8 + func) as u64
}

/// The register of four bytes that holds byte `offset`.
pub open spec fn config_word(cs: Map<u64, Seq<u32>>, key: u64, offset: int) -> u32 {
    if cs.dom().contains(key) && offset / 4 < cs[key].len() {
        cs[key][offset / 4]
    } else {
        0xFFFF_FFFF
    }
}

/// Byte `offset` of the registers.
pub open spec fn config_byte(cs: Map<u64, Seq<u32>>, key: u64, offset: int) -> u8 {
    let w = config_word(cs, key, offset);
    (if offset % 4 == 0 {
        w
    } else if offset % 4 == 1 {
        w / 0x100
    } else if offset % 4 == 2 {
        w / 0x1_0000
    } else {
        w / 0x100_0000
    } % 0x100) as u8
}

/// The two bytes at the even `offset`.
pub open spec fn config_half(cs: Map<u64, Seq<u32>>, key: u64, offset: int) -> u16 {
    let w = config_word(cs, key, offset);
    (if offset % 4 < 2 {
        w
    } else {
        w / 0x1_0000
    } % 0x1_0000) as u16
}

/// What the base address register `index` of a device describes.
pub open spec fn bar_of(bars: Seq<u32>, index: int) -> Bar {
    let raw = bars[index];
    if raw == 0 {
        Bar::Absent
    } else if raw % 2 == 1 {
        Bar::Io { base: (raw - raw % 4) as u32 }
    } else {
        let wide = raw / 2 % 4 == 2;
        Bar::Mem {
            base: (raw - raw % 16 + if wide && index + 1 < 6 {
                0x1_0000_0000 * bars[index + 1]
            } else {
                0
            }) as u64,
            prefetchable: raw / 8 % 2 == 1,
            is_64: wide,
        }
    }
}

/// Whether `d` is what the registers say of a function.
pub open spec fn describes(cs: Map<u64, Seq<u32>>, d: PciDevice) -> bool {
    let key = function_key(d.bus, d.slot, d.func);
    &&& d.vendor_id == config_half(cs, key, 0x00)
    &&& d.device_id == config_half(cs, key, 0x02)
    &&& d.prog_if == config_byte(cs, key, 0x09)
    &&& d.subclass == config_byte(cs, key, 0x0A)
    &&& d.class == config_byte(cs, key, 0x0B)
    &&& d.header_type == config_byte(cs, key, 0x0E)
    &&& forall|i: int| 0 <= i < 6 ==> #[trigger] d.bars@[i] == config_word(cs, key, 0x10 + 4 * i)
}

/// Where a function is: bus, slot and number.
pub type Place = (int, int, int);

/// Where a device says it is.
pub open spec fn place_of(d: PciDevice) -> Place {
    (d.bus as int, d.slot as int, d.func as int)
}

/// Whether there is a function at a place.
pub open spec fn present(cs: Map<u64, Seq<u32>>, p: Place) -> bool {
    config_half(cs, function_key(p.0 as u8, p.1 as u8, p.2 as u8), 0x00) != VENDOR_NONE
}

/// The functions from number `f` on that are there in a slot.
pub open spec fn functions_from(cs: Map<u64, Seq<u32>>, b: int, s: int, f: int) -> Seq<Place>
    decreases 8 - f,
{
    if f >= 8 {
        Seq::empty()
    } else if present(cs, (b, s, f)) {
        seq![(b, s, f)] + functions_from(cs, b, s, f + 1)
    } else {
        functions_from(cs, b, s, f + 1)
    }
}

/// The functions of a slot. Those behind the first are looked for only if the device says that it
/// has more than one.
pub open spec fn slot_functions(cs: Map<u64, Seq<u32>>, b: int, s: int) -> Seq<Place> {
    if !present(cs, (b, s, 0)) {
        Seq::empty()
    } else if config_byte(cs, function_key(b as u8, s as u8, 0), 0x0E) >= HEADER_MULTIFUNCTION {
        seq![(b, s, 0int)] + functions_from(cs, b, s, 1)
    } else {
        seq![(b, s, 0int)]
    }
}

/// The functions of a bus from slot `s` on.
pub open spec fn slots_from(cs: Map<u64, Seq<u32>>, b: int, s: int) -> Seq<Place>
    decreases 32 - s,
{
    if s >= 32 {
        Seq::empty()
    } else {
        slot_functions(cs, b, s) + slots_from(cs, b, s + 1)
    }
}

/// The functions from bus `b` on.
pub open spec fn buses_from(cs: Map<u64, Seq<u32>>, b: int) -> Seq<Place>
    decreases 256 - b,
{
    if b >= 256 {
        Seq::empty()
    } else {
        slots_from(cs, b, 0) + buses_from(cs, b + 1)
    }
}

/// Where the devices of a list are.
pub open spec fn places(ds: Seq<PciDevice>) -> Seq<Place> {
    Seq::new(ds.len(), |i: int| place_of(ds[i]))
}

/// All devices of a list are as the registers say.
pub open spec fn all_described(cs: Map<u64, Seq<u32>>, ds: Seq<PciDevice>) -> bool {
    forall|i: int| 0 <= i < ds.len() ==> describes(cs, #[trigger] ds[i])
}

/// The number of the function at a place.
pub open spec fn key_at(p: Place) -> u64 {
    function_key(p.0 as u8, p.1 as u8, p.2 as u8)
}

/// Whether the function at a place has the given vendor and number.
pub open spec fn has_ids(cs: Map<u64, Seq<u32>>, p: Place, vendor_id: u16, device_id: u16) -> bool {
    config_half(cs, key_at(p), 0x00) == vendor_id && config_half(cs, key_at(p), 0x02) == device_id
}

/// The first of the places whose function has the given vendor and number.
pub open spec fn first_with(
    cs: Map<u64, Seq<u32>>,
    ps: Seq<Place>,
    vendor_id: u16,
    device_id: u16,
) -> Option<Place>
    decreases ps.len(),
{
    if ps.len() == 0 {
        None
    } else if has_ids(cs, ps[0], vendor_id, device_id) {
        Some(ps[0])
    } else {
        first_with(cs, ps.skip(1), vendor_id, device_id)
    }
}

/// The first device on the bus with the given vendor and number.
pub open spec fn found(cs: Map<u64, Seq<u32>>, vendor_id: u16, device_id: u16) -> Option<Place> {
    first_with(cs, buses_from(cs, 0), vendor_id, device_id)
}

impl PciDevice {
    /// What base address register `index` describes.
    pub fn bar(&self, index: usize) -> (r: Bar)
        requires
            index < 6,
        ensures
            r == bar_of(self.bars@, index as int),
    {
        let raw = self.bars[index];
        if raw == 0 {
            return Bar::Absent;
        }
        if raw % 2 == 1 {
            Bar::Io { base: raw - raw % 4 }
        } else {
            let is_64 = raw / 2 % 4 == 2;
            let prefetchable = raw / 8 % 2 == 1;
            let mut base: u64 = (raw - raw % 16) as u64;
            if is_64 && index + 1 < 6 {
                base = base + 0x1_0000_0000 * (self.bars[index + 1] as u64);
            }
            Bar::Mem { base, prefetchable, is_64 }
        }
    }
}

impl ConfigSpace {
    /// Nothing on the bus.
    pub fn new() -> (cs: ConfigSpace)
        ensures
            cs@ == Map::<u64, Seq<u32>>::empty(),
    {
        let cs = ConfigSpace { functions: BTreeMap::new() };
        assert(cs@ =~= Map::<u64, Seq<u32>>::empty());
        cs
    }

    /// Notes the registers of a function.
    pub fn put(&mut self, bus: u8, slot: u8, func: u8, words: Vec<u32>)
        requires
            slot < 32,
            func < 8,
        ensures
            final(self)@ == old(self)@.insert(function_key(bus, slot, func), words@),
    {
        let ghost before = self@;
        let key = bus as u64 * 256 + slot as u64 * 8 + func as u64;
        self.functions.insert(key, words);
        assert(self@ =~= before.insert(key, words@));
    }

    /// The register of four bytes that holds byte `offset`.
    pub fn config_read_u32(&self, key: u64, offset: u8) -> (w: u32)
        ensures
            w == config_word(self@, key, offset as int),
    {
        let i = (offset / 4) as usize;
        match self.functions.get(&key) {
            Some(words) => {
                if i < words.len() {
                    words[i]
                } else {
                    0xFFFF_FFFF
                }
            },
            None => 0xFFFF_FFFF,
        }
    }

    /// The two bytes at the even `offset`.
    fn config_read_u16(&self, key: u64, offset: u8) -> (h: u16)
        ensures
            h == config_half(self@, key, offset as int),
    {
        let w = self.config_read_u32(key, offset);
        let part: u32 = if offset % 4 < 2 { w } else { w / 0x1_0000 };
        (part % 0x1_0000) as u16
    }

    /// Byte `offset`.
    fn config_read_u8(&self, key: u64, offset: u8) -> (b: u8)
        ensures
            b == config_byte(self@, key, offset as int),
    {
        let w = self.config_read_u32(key, offset);
        let at = offset % 4;
        let part: u32 = if at == 0 {
            w
        } else if at == 1 {
            w / 0x100
        } else if at == 2 {
            w / 0x1_0000
        } else {
            w / 0x100_0000
        };
        (part % 0x100) as u8
    }

    /// What the registers say of a function, if it is there.
    fn read_device(&self, bus: u8, slot: u8, func: u8) -> (r: Option<PciDevice>)
        requires
            slot < 32,
            func < 8,
        ensures
            match r {
                Some(d) => present(self@, (bus as int, slot as int, func as int)) && d.bus == bus
                    && d.slot == slot && d.func == func && describes(self@, d),
                None => !present(self@, (bus as int, slot as int, func as int)),
            },
    {
        let key = bus as u64 * 256 + slot as u64 * 8 + func as u64;
        let vendor_id = self.config_read_u16(key, 0x00);
        if vendor_id == VENDOR_NONE {
            return None;
        }
        let device_id = self.config_read_u16(key, 0x02);
        let prog_if = self.config_read_u8(key, 0x09);
        let subclass = self.config_read_u8(key, 0x0A);
        let class = self.config_read_u8(key, 0x0B);
        let header_type = self.config_read_u8(key, 0x0E);
        let bars = [
            self.config_read_u32(key, 0x10),
            self.config_read_u32(key, 0x14),
            self.config_read_u32(key, 0x18),
            self.config_read_u32(key, 0x1C),
            self.config_read_u32(key, 0x20),
            self.config_read_u32(key, 0x24),
        ];
        Some(
            PciDevice {
                bus,
                slot,
                func,
                vendor_id,
                device_id,
                class,
                subclass,
                prog_if,
                header_type,
                bars,
            },
        )
    }

    /// The devices of a slot.
    fn slot_devices(&self, bus: u8, slot: u8, devices: &mut Vec<PciDevice>)
        requires
            slot < 32,
            all_described(self@, old(devices)@),
        ensures
            all_described(self@, final(devices)@),
            places(final(devices)@) == places(old(devices)@) + slot_functions(
                self@,
                bus as int,
                slot as int,
            ),
    {
        let ghost before = devices@;
        let dev0 = match self.read_device(bus, slot, 0) {
            Some(d) => d,
            None => {
                assert(places(devices@) =~= places(before) + slot_functions(
                    self@,
                    bus as int,
                    slot as int,
                ));
                return ;
            },
        };
        let multifunction = dev0.header_type >= HEADER_MULTIFUNCTION;
        devices.push(dev0);
        let ghost first = seq![(bus as int, slot as int, 0int)];
        assert(places(devices@) =~= places(before) + first);
        if multifunction {
            let ghost rest = functions_from(self@, bus as int, slot as int, 1);
            let mut func: u8 = 1;
            assert(places(before) + first + rest =~= places(devices@) + rest);
            while func < 8
                invariant
                    slot < 32,
                    1 <= func <= 8,
                    all_described(self@, devices@),
                    places(before) + first + rest == places(devices@) + functions_from(
                        self@,
                        bus as int,
                        slot as int,
                        func as int,
                    ),
                decreases 8 - func,
            {
                let ghost now = devices@;
                let ghost tail = functions_from(self@, bus as int, slot as int, func + 1);
                match self.read_device(bus, slot, func) {
                    Some(d) => {
                        devices.push(d);
                        let ghost p = (bus as int, slot as int, func as int);
                        assert(places(devices@) =~= places(now).push(p));
                        assert(places(now) + (seq![p] + tail) =~= places(devices@) + tail);
                    },
                    None => {},
                }
                func += 1;
            }
            assert(places(devices@) =~= places(before) + (first + rest));
        }
    }

    /// All devices on the bus.
    pub fn enumerate(&self) -> (devices: Vec<PciDevice>)
        ensures
            all_described(self@, devices@),
            places(devices@) == buses_from(self@, 0),
    {
        let ghost all = buses_from(self@, 0);
        let mut devices: Vec<PciDevice> = Vec::new();
        let mut bus: u16 = 0;
        assert(places(devices@) + all =~= all);
        while bus < 256
            invariant
                bus <= 256,
                all_described(self@, devices@),
                all == places(devices@) + buses_from(self@, bus as int),
            decreases 256 - bus,
        {
            let ghost start = places(devices@);
            let ghost later = buses_from(self@, bus + 1);
            let ghost here = slots_from(self@, bus as int, 0);
            let mut slot: u8 = 0;
            assert(start + here =~= places(devices@) + here);
            while slot < 32
                invariant
                    slot <= 32,
                    bus < 256,
                    all_described(self@, devices@),
                    start + here == places(devices@) + slots_from(self@, bus as int, slot as int),
                decreases 32 - slot,
            {
                let ghost now = places(devices@);
                let ghost tail = slots_from(self@, bus as int, slot + 1);
                self.slot_devices(bus as u8, slot, &mut devices);
                assert(now + (slot_functions(self@, bus as int, slot as int) + tail) =~= places(
                    devices@,
                ) + tail);
                slot += 1;
            }
            assert(places(devices@) + later =~= start + (here + later));
            bus += 1;
        }
        assert(places(devices@) =~= all);
        devices
    }

    /// The first device with the given vendor and number.
    pub fn find(&self, vendor_id: u16, device_id: u16) -> (r: Option<PciDevice>)
        ensures
            match found(self@, vendor_id, device_id) {
                Some(p) => r matches Some(d) && place_of(d) == p && describes(self@, d),
                None => r is None,
            },
    {
        let devices = self.enumerate();
        let ghost ps = places(devices@);
        let mut i: usize = 0;
        assert(ps.skip(0) =~= ps);
        while i < devices.len()
            invariant
                i <= devices@.len(),
                all_described(self@, devices@),
                ps == places(devices@),
                ps == buses_from(self@, 0),
                found(self@, vendor_id, device_id) == first_with(
                    self@,
                    ps.skip(i as int),
                    vendor_id,
                    device_id,
                ),
            decreases devices@.len() - i,
        {
            let d = devices[i];
            assert(describes(self@, devices@[i as int]));
            assert(ps.skip(i as int)[0] == place_of(d));
            assert(ps.skip(i as int).skip(1) =~= ps.skip(i + 1));
            if d.vendor_id == vendor_id && d.device_id == device_id {
                return Some(d);
            }
            i += 1;
        }
        None
    }
}

/// Every function of a slot is found that the device owns up to: the first wherever it is there,
/// the others where it says that there are more.
pub proof fn law_present_functions_are_listed(cs: Map<u64, Seq<u32>>, b: int, s: int, f: int)
    requires
        0 <= b < 256,
        0 <= s < 32,
        0 <= f < 8,
        present(cs, (b, s, 0)),
        present(cs, (b, s, f)),
        f == 0 || config_byte(cs, function_key(b as u8, s as u8, 0), 0x0E) >= HEADER_MULTIFUNCTION,
    ensures
        buses_from(cs, 0).contains((b, s, f)),
{
    lemma_function_listed(cs, b, s, 1, f);
    let here = slot_functions(cs, b, s);
    assert(here.contains((b, s, f))) by {
        if f == 0 {
            assert(here[0] == (b, s, 0int));
        } else {
            let rest = functions_from(cs, b, s, 1);
            let k = choose|k: int| 0 <= k < rest.len() && rest[k] == (b, s, f);
            assert(here[k + 1] == (b, s, f));
        }
    }
    lemma_slot_listed(cs, b, 0, s, f);
    lemma_bus_listed(cs, 0, b, s, f);
}

/// A function that is there is among those listed of its slot, from a lower number on.
proof fn lemma_function_listed(cs: Map<u64, Seq<u32>>, b: int, s: int, from: int, f: int)
    requires
        present(cs, (b, s, f)),
        f < 8,
    ensures
        from <= f ==> functions_from(cs, b, s, from).contains((b, s, f)),
    decreases 8 - from,
{
    if from <= f {
        let rest = functions_from(cs, b, s, from + 1);
        let all = functions_from(cs, b, s, from);
        lemma_function_listed(cs, b, s, from + 1, f);
        if from == f {
            assert(all[0] == (b, s, f));
        } else {
            let k = choose|k: int| 0 <= k < rest.len() && rest[k] == (b, s, f);
            if present(cs, (b, s, from)) {
                assert(all[k + 1] == (b, s, f));
            } else {
                assert(all[k] == (b, s, f));
            }
        }
    }
}

/// What is listed of a slot is listed of its bus, from a lower slot on.
proof fn lemma_slot_listed(cs: Map<u64, Seq<u32>>, b: int, from: int, s: int, f: int)
    requires
        slot_functions(cs, b, s).contains((b, s, f)),
        from <= s < 32,
    ensures
        slots_from(cs, b, from).contains((b, s, f)),
    decreases 32 - from,
{
    let here = slot_functions(cs, b, from);
    let rest = slots_from(cs, b, from + 1);
    let all = slots_from(cs, b, from);
    assert(all == here + rest);
    if from == s {
        let k = choose|k: int| 0 <= k < here.len() && here[k] == (b, s, f);
        assert(all[k] == (b, s, f));
    } else {
        lemma_slot_listed(cs, b, from + 1, s, f);
        let k = choose|k: int| 0 <= k < rest.len() && rest[k] == (b, s, f);
        assert(all[here.len() + k] == (b, s, f));
    }
}

/// What is listed of a bus is listed, from a lower bus on.
proof fn lemma_bus_listed(cs: Map<u64, Seq<u32>>, from: int, b: int, s: int, f: int)
    requires
        slots_from(cs, b, 0).contains((b, s, f)),
        from <= b < 256,
    ensures
        buses_from(cs, from).contains((b, s, f)),
    decreases 256 - from,
{
    let here = slots_from(cs, from, 0);
    let rest = buses_from(cs, from + 1);
    let all = buses_from(cs, from);
    assert(all == here + rest);
    if from == b {
        let k = choose|k: int| 0 <= k < here.len() && here[k] == (b, s, f);
        assert(all[k] == (b, s, f));
    } else {
        lemma_bus_listed(cs, from + 1, b, s, f);
        let k = choose|k: int| 0 <= k < rest.len() && rest[k] == (b, s, f);
        assert(all[here.len() + k] == (b, s, f));
    }
}

} // verus!
