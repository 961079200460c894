//! Seats: named bundles of device files that one session at a time may own.

use crate::text::{copy, same_bytes};
use vstd::prelude::*;
use vstd::std_specs::cmp::PartialEqSpecImpl;
use vstd::std_specs::convert::FromSpecImpl;

verus! {

/// The name of a seat, such as `seat0`.
#[derive(Debug, Eq, Hash)]
pub struct SeatId {
    id: String,
}

impl View for SeatId {
    type V = Seq<char>;

    closed spec fn view(&self) -> Seq<char> {
        self.id@
    }
}

impl PartialEq for SeatId {
    fn eq(&self, other: &SeatId) -> (r: bool) {
        self.id == other.id
    }
}

impl PartialEqSpecImpl for SeatId {
    open spec fn obeys_eq_spec() -> bool {
        true
    }

    open spec fn eq_spec(&self, other: &SeatId) -> bool {
        self@ == other@
    }
}

impl Clone for SeatId {
    fn clone(&self) -> (r: SeatId)
        ensures
            r@ == self@,
    {
        SeatId { id: self.id.clone() }
    }
}

impl<'a> From<&'a str> for SeatId {
    fn from(r: &'a str) -> (id: SeatId)
        ensures
            id@ == r@,
    {
        SeatId { id: r.to_owned() }
    }
}

impl<'a> FromSpecImpl<&'a str> for SeatId {
    open spec fn obeys_from_spec() -> bool {
        false
    }

    open spec fn from_spec(r: &'a str) -> SeatId {
        arbitrary()
    }
}

impl SeatId {
    /// The name as text.
    pub fn as_str(&self) -> (r: &str)
        ensures
            r@ == self@,
    {
        self.id.as_str()
    }
}

/// A device file, as device discovery reports it.
#[derive(Debug)]
pub struct Device {
    /// The path of the device file.
    pub dev_name: Vec<u8>,
    /// The seat that the device is tagged for, if it is tagged.
    pub seat_tag: Option<String>,
}

/// What a `Device` stands for.
pub struct DeviceView {
    pub dev_name: Seq<u8>,
    pub seat_tag: Option<Seq<char>>,
}

impl View for Device {
    type V = DeviceView;

    open spec fn view(&self) -> DeviceView {
        DeviceView {
            dev_name: self.dev_name@,
            seat_tag: match self.seat_tag {
                Some(tag) => Some(tag@),
                None => None,
            },
        }
    }
}

impl Clone for Device {
    fn clone(&self) -> (r: Device)
        ensures
            r@ == self@,
    {
        Device {
            dev_name: copy(self.dev_name.as_slice()),
            seat_tag: match &self.seat_tag {
                Some(tag) => Some(tag.clone()),
                None => None,
            },
        }
    }
}

/// Why the devices of a seat could not be loaded.
#[derive(Debug)]
pub enum Error {
    /// The device file at this path could not be looked at.
    IoError(Vec<u8>),
}

/// The contents of a list of devices.
pub open spec fn device_views(devices: Seq<Device>) -> Seq<DeviceView> {
    Seq::new(devices.len(), |i: int| devices[i]@)
}

/// Whether no two devices of the list have the same path.
pub open spec fn distinct_names(devices: Seq<DeviceView>) -> bool {
    forall|i: int, j: int|
        0 <= i < j < devices.len() ==> (#[trigger] devices[i]).dev_name != (
        #[trigger] devices[j]).dev_name
}

/// Whether the list holds a device with the path `name`.
pub open spec fn has_name(devices: Seq<DeviceView>, name: Seq<u8>) -> bool {
    exists|i: int| 0 <= i < devices.len() && (#[trigger] devices[i]).dev_name == name
}

/// The list after `device` was reported: it takes the place of the device
/// with the same path, or the last place where there is none.
pub open spec fn upsert(devices: Seq<DeviceView>, device: DeviceView) -> Seq<DeviceView> {
    if has_name(devices, device.dev_name) {
        devices.update(
            choose|i: int|
                0 <= i < devices.len() && (#[trigger] devices[i]).dev_name == device.dev_name,
            device,
        )
    } else {
        devices.push(device)
    }
}

/// The list after each device of `reported` was reported in turn.
pub open spec fn upsert_all(devices: Seq<DeviceView>, reported: Seq<DeviceView>) -> Seq<
    DeviceView,
>
    decreases reported.len(),
{
    if reported.len() == 0 {
        devices
    } else {
        upsert(upsert_all(devices, reported.drop_last()), reported.last())
    }
}

/// Reporting a device keeps the paths of a list distinct, keeps every path
/// that the list held, and adds the device's own.
pub proof fn lemma_upsert(devices: Seq<DeviceView>, device: DeviceView)
    requires
        distinct_names(devices),
    ensures
        distinct_names(upsert(devices, device)),
        forall|name: Seq<u8>|
            has_name(upsert(devices, device), name) <==> has_name(devices, name) || name
                == device.dev_name,
{
    let after = upsert(devices, device);
    if has_name(devices, device.dev_name) {
        let k = choose|i: int|
            0 <= i < devices.len() && (#[trigger] devices[i]).dev_name == device.dev_name;
        assert forall|i: int, j: int|
            0 <= i < j < after.len() implies (#[trigger] after[i]).dev_name
            != (#[trigger] after[j]).dev_name by {
            assert(devices[i].dev_name != devices[j].dev_name);
        }
        assert forall|name: Seq<u8>|
            has_name(after, name) <==> has_name(devices, name) || name == device.dev_name by {
            if has_name(after, name) {
                let i = choose|i: int|
                    0 <= i < after.len() && (#[trigger] after[i]).dev_name == name;
                assert(devices[i].dev_name == name);
            }
            if has_name(devices, name) {
                let i = choose|i: int|
                    0 <= i < devices.len() && (#[trigger] devices[i]).dev_name == name;
                assert(after[i].dev_name == name);
            }
            if name == device.dev_name {
                assert(after[k].dev_name == name);
            }
        }
    } else {
        assert forall|i: int, j: int|
            0 <= i < j < after.len() implies (#[trigger] after[i]).dev_name
            != (#[trigger] after[j]).dev_name by {
            if j < devices.len() {
                assert(devices[i].dev_name != devices[j].dev_name);
            } else {
                assert(devices[i].dev_name != device.dev_name);
            }
        }
        assert forall|name: Seq<u8>|
            has_name(after, name) <==> has_name(devices, name) || name == device.dev_name by {
            if has_name(after, name) {
                let i = choose|i: int|
                    0 <= i < after.len() && (#[trigger] after[i]).dev_name == name;
                if i < devices.len() {
                    assert(devices[i].dev_name == name);
                }
            }
            if has_name(devices, name) {
                let i = choose|i: int|
                    0 <= i < devices.len() && (#[trigger] devices[i]).dev_name == name;
                assert(after[i].dev_name == name);
            }
            if name == device.dev_name {
                assert(after[after.len() - 1].dev_name == name);
            }
        }
    }
}

/// Reporting several devices keeps the paths of a list distinct.
pub proof fn lemma_upsert_all(devices: Seq<DeviceView>, reported: Seq<DeviceView>)
    requires
        distinct_names(devices),
    ensures
        distinct_names(upsert_all(devices, reported)),
    decreases reported.len(),
{
    if reported.len() > 0 {
        lemma_upsert_all(devices, reported.drop_last());
        lemma_upsert(upsert_all(devices, reported.drop_last()), reported.last());
    }
}

/// What a `Seat` stands for.
pub struct SeatView {
    /// The name of the seat.
    pub id: Seq<char>,
    /// The devices of the seat, in the order in which their paths were first
    /// reported.
    pub devices: Seq<DeviceView>,
}

/// A seat and its devices.
#[derive(Debug)]
pub struct Seat {
    id: SeatId,
    devices: Vec<Device>,
}

impl View for Seat {
    type V = SeatView;

    closed spec fn view(&self) -> SeatView {
        SeatView { id: self.id@, devices: device_views(self.devices@) }
    }
}

impl Seat {
    /// No two devices of the seat have the same path.
    pub open spec fn wf(&self) -> bool {
        distinct_names(self@.devices)
    }

    /// The name of the seat.
    pub fn id(&self) -> (r: &SeatId)
        ensures
            r@ == self@.id,
    {
        &self.id
    }

    /// The devices of the seat.
    pub fn devices(&self) -> (r: &Vec<Device>)
        ensures
            device_views(r@) == self@.devices,
    {
        &self.devices
    }

    fn insert(&mut self, device: Device)
        requires
            old(self).wf(),
        ensures
            final(self).wf(),
            final(self)@ == (SeatView {
                devices: upsert(old(self)@.devices, device@),
                ..old(self)@
            }),
    {
        let ghost before = self@.devices;
        let ghost reported = device@;
        proof {
            lemma_upsert(before, reported);
        }
        let mut i: usize = 0;
        while i < self.devices.len()
            invariant
                i <= self.devices.len(),
                before == device_views(self.devices@),
                before == old(self)@.devices,
                self@.id == old(self)@.id,
                reported == device@,
                distinct_names(before),
                forall|j: int| 0 <= j < i ==> (#[trigger] before[j]).dev_name != device.dev_name@,
            decreases self.devices.len() - i,
        {
            if same_bytes(self.devices[i].dev_name.as_slice(), device.dev_name.as_slice()) {
                proof {
                    assert(before[i as int].dev_name == reported.dev_name);
                    let k = choose|k: int|
                        0 <= k < before.len() && (#[trigger] before[k]).dev_name
                            == reported.dev_name;
                    if k < i {
                        assert(before[k].dev_name != before[i as int].dev_name);
                    } else if i < k {
                        assert(before[i as int].dev_name != before[k].dev_name);
                    }
                }
                self.devices.set(i, device);
                proof {
                    assert(device_views(self.devices@) =~= before.update(i as int, reported));
                }
                return ;
            }
            i = i + 1;
        }
        self.devices.push(device);
        proof {
            assert(!has_name(before, reported.dev_name));
            assert(device_views(self.devices@) =~= before.push(reported));
        }
    }

    /// Takes the devices that discovery reported into the seat: a device
    /// whose path the seat holds already replaces the one held, any other is
    /// added. No device leaves the seat.
    pub fn reload_devices(&mut self, reported: &Vec<Device>) -> (r: Result<(), Error>)
        requires
            old(self).wf(),
        ensures
            r is Ok,
            final(self).wf(),
            final(self)@ == (SeatView {
                devices: upsert_all(old(self)@.devices, device_views(reported@)),
                ..old(self)@
            }),
    {
        let mut i: usize = 0;
        let ghost all = device_views(reported@);
        proof {
            assert(all.subrange(0, 0) =~= Seq::<DeviceView>::empty());
        }
        while i < reported.len()
            invariant
                i <= reported.len(),
                all == device_views(reported@),
                self.wf(),
                self@ == (SeatView {
                    devices: upsert_all(old(self)@.devices, all.subrange(0, i as int)),
                    ..old(self)@
                }),
            decreases reported.len() - i,
        {
            proof {
                let longer = all.subrange(0, i + 1);
                assert(longer.drop_last() =~= all.subrange(0, i as int));
                assert(longer.last() == reported@[i as int]@);
            }
            self.insert(reported[i].clone());
            i = i + 1;
        }
        proof {
            assert(all.subrange(0, all.len() as int) =~= all);
        }
        Ok(())
    }

    /// The seat `seat_tag` with the devices that discovery reported for it. Of
    /// several reports of one path the last one counts.
    pub fn get_seat(seat_tag: &str, reported: &Vec<Device>) -> (r: Result<Seat, Error>)
        ensures
            match r {
                Ok(seat) => seat.wf() && seat@ == (SeatView {
                    id: seat_tag@,
                    devices: upsert_all(Seq::empty(), device_views(reported@)),
                }),
                Err(_) => false,
            },
    {
        let mut seat = Seat { id: SeatId::from(seat_tag), devices: Vec::new() };
        proof {
            assert(seat@.devices =~= Seq::<DeviceView>::empty());
        }
        match seat.reload_devices(reported) {
            Ok(()) => Ok(seat),
            Err(e) => Err(e),
        }
    }
}

} // verus!
