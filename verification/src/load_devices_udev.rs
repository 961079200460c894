//! Device discovery: reading the device records that the device database
//! prints, one block of lines for each device.

use crate::cgroupv2::bytes_of;
use crate::seat::{device_views, Device, DeviceView};
use crate::text::{
    contains, has_infix, has_prefix, pieces, rows, split, starts_with, tail, NEWLINE,
};
use vstd::prelude::*;

verus! {

/// Whether `line` gives the path of the device file.
pub open spec fn names_device(line: Seq<u8>) -> bool {
    has_prefix(line, bytes_of("E: DEVNAME="))
}

/// Whether `line` lists the tags of the device, and the tag `seat` among
/// them.
pub open spec fn tags_seat(line: Seq<u8>) -> bool {
    has_prefix(line, bytes_of("E: TAGS=")) && has_infix(line, bytes_of(":seat:"))
}

/// `line` without every copy of `prefix` that it begins with.
pub open spec fn strip_all(line: Seq<u8>, prefix: Seq<u8>) -> Seq<u8>
    decreases line.len(),
{
    if prefix.len() > 0 && has_prefix(line, prefix) {
        strip_all(line.subrange(prefix.len() as int, line.len() as int), prefix)
    } else {
        line
    }
}

/// The path that the last of `lines` with a path gives, if any gives one.
pub open spec fn named_path(lines: Seq<Seq<u8>>) -> Option<Seq<u8>>
    decreases lines.len(),
{
    if lines.len() == 0 {
        None
    } else if names_device(lines.last()) {
        Some(strip_all(lines.last(), bytes_of("E: DEVNAME=")))
    } else {
        named_path(lines.drop_last())
    }
}

/// Whether one of `lines` tags the device for a seat.
pub open spec fn seat_assignable(lines: Seq<Seq<u8>>) -> bool {
    exists|i: int| 0 <= i < lines.len() && tags_seat(#[trigger] lines[i])
}

/// The device that the block `raw` describes: one with a path and the tag
/// `seat`. It is tagged for no seat in particular.
pub open spec fn device_of(raw: Seq<u8>) -> Option<DeviceView> {
    let lines = pieces(raw, NEWLINE);
    match named_path(lines) {
        Some(path) => if seat_assignable(lines) {
            Some(DeviceView { dev_name: path, seat_tag: None })
        } else {
            None
        },
        None => None,
    }
}

/// The blocks that end at or before position `upto` of `raw`, and where the
/// next block begins. A block ends where one newline follows another; the
/// line break before the empty line is no part of it.
pub open spec fn blocks_upto(raw: Seq<u8>, upto: int) -> (Seq<Seq<u8>>, int)
    decreases upto,
{
    if upto <= 0 {
        (Seq::empty(), 0)
    } else {
        let (blocks, start) = blocks_upto(raw, upto - 1);
        if raw[upto - 1] == NEWLINE && raw[upto] == NEWLINE {
            (
                blocks.push(
                    if start <= upto - 1 {
                        raw.subrange(start, upto - 1)
                    } else {
                        Seq::empty()
                    },
                ),
                upto + 1,
            )
        } else {
            (blocks, start)
        }
    }
}

/// The blocks of `raw`. Text after the last empty line is no block.
pub open spec fn blocks(raw: Seq<u8>) -> Seq<Seq<u8>> {
    blocks_upto(raw, raw.len() - 1).0
}

/// The devices that `blocks` describe, in their order.
pub open spec fn described(blocks: Seq<Seq<u8>>) -> Seq<DeviceView>
    decreases blocks.len(),
{
    if blocks.len() == 0 {
        Seq::empty()
    } else {
        match device_of(blocks.last()) {
            Some(device) => described(blocks.drop_last()).push(device),
            None => described(blocks.drop_last()),
        }
    }
}

/// `line` without every copy of `prefix` that it begins with.
fn strip_prefixes(line: &[u8], prefix: &[u8]) -> (out: Vec<u8>)
    ensures
        out@ == strip_all(line@, prefix@),
{
    if prefix.len() == 0 {
        return tail(line, 0);
    }
    let total: usize = line.len();
    let mut from: usize = 0;
    proof {
        assert(line@.subrange(0, line@.len() as int) =~= line@);
    }
    loop
        invariant
            from <= total == line@.len(),
            prefix@.len() > 0,
            strip_all(line@, prefix@) == strip_all(
                line@.subrange(from as int, line@.len() as int),
                prefix@,
            ),
        decreases total - from,
    {
        let rest = tail(line, from);
        if !starts_with(rest.as_slice(), prefix) {
            return rest;
        }
        proof {
            assert(from + prefix@.len() <= line@.len());
            assert(rest@.subrange(prefix@.len() as int, rest@.len() as int) =~= line@.subrange(
                from + prefix@.len(),
                line@.len() as int,
            ));
        }
        from = from + prefix.len();
    }
}

/// Reads one block of the device database's output: the device that it
/// describes, if it describes one that may be assigned to a seat.
pub fn parse_dev(raw: &[u8]) -> (r: Option<Device>)
    ensures
        match r {
            Some(device) => device_of(raw@) == Some(device@),
            None => device_of(raw@) is None,
        },
{
    let lines = split(raw, NEWLINE);
    let ghost all = pieces(raw@, NEWLINE);
    let mut dev_name: Option<Vec<u8>> = None;
    let mut seat_assignable: bool = false;
    let name_key = "E: DEVNAME=".as_bytes();
    let tags_key = "E: TAGS=".as_bytes();
    let seat_key = ":seat:".as_bytes();
    let mut i: usize = 0;
    proof {
        assert(all.subrange(0, 0) =~= Seq::<Seq<u8>>::empty());
    }
    while i < lines.len()
        invariant
            i <= lines.len(),
            rows(lines@) == all,
            name_key@ == bytes_of("E: DEVNAME="),
            tags_key@ == bytes_of("E: TAGS="),
            seat_key@ == bytes_of(":seat:"),
            match dev_name {
                Some(path) => named_path(all.subrange(0, i as int)) == Some(path@),
                None => named_path(all.subrange(0, i as int)) is None,
            },
            seat_assignable <==> exists|j: int| 0 <= j < i && tags_seat(#[trigger] all[j]),
        decreases lines.len() - i,
    {
        let line = lines[i].as_slice();
        proof {
            assert(line@ == all[i as int]);
            let longer = all.subrange(0, i + 1);
            assert(longer.drop_last() =~= all.subrange(0, i as int));
            assert(longer.last() == line@);
        }
        if starts_with(line, name_key) {
            dev_name = Some(strip_prefixes(line, name_key));
        }
        if starts_with(line, tags_key) && contains(line, seat_key) {
            seat_assignable = true;
        }
        i = i + 1;
    }
    proof {
        assert(all.subrange(0, all.len() as int) =~= all);
    }
    if !seat_assignable {
        return None;
    }
    match dev_name {
        Some(path) => Some(Device { dev_name: path, seat_tag: None }),
        None => None,
    }
}

/// Reads the device database's output: the devices that its blocks describe,
/// in their order.
pub fn load_devices_from_udev(raw_data: &[u8]) -> (devs: Vec<Device>)
    ensures
        device_views(devs@) == described(blocks(raw_data@)),
{
    let mut devs: Vec<Device> = Vec::new();
    let mut start: usize = 0;
    let ghost mut found: Seq<Seq<u8>> = Seq::empty();
    if raw_data.len() == 0 {
        proof {
            assert(device_views(devs@) =~= described(blocks(raw_data@)));
        }
        return devs;
    }
    let mut idx: usize = 1;
    proof {
        assert(device_views(devs@) =~= described(found));
    }
    while idx < raw_data.len()
        invariant
            1 <= idx <= raw_data@.len(),
            start <= idx + 1,
            (found, start as int) == blocks_upto(raw_data@, idx - 1),
            device_views(devs@) == described(found),
        decreases raw_data.len() - idx,
    {
        if raw_data[idx - 1] == NEWLINE && raw_data[idx] == NEWLINE {
            let block = if start <= idx - 1 {
                let mut block: Vec<u8> = Vec::new();
                let mut at: usize = start;
                while at < idx - 1
                    invariant
                        start <= at <= idx - 1,
                        idx < raw_data@.len(),
                        block@ == raw_data@.subrange(start as int, at as int),
                    decreases idx - 1 - at,
                {
                    block.push(raw_data[at]);
                    proof {
                        assert(raw_data@.subrange(start as int, at + 1) =~= raw_data@.subrange(
                            start as int,
                            at as int,
                        ).push(raw_data@[at as int]));
                    }
                    at = at + 1;
                }
                block
            } else {
                Vec::new()
            };
            let ghost before = found;
            let ghost devices_before = devs@;
            proof {
                found = found.push(block@);
                assert(found.drop_last() =~= before);
            }
            match parse_dev(block.as_slice()) {
                Some(dev) => {
                    devs.push(dev);
                    proof {
                        assert(device_views(devs@) =~= device_views(
                            devices_before,
                        ).push(device_of(block@).unwrap()));
                    }
                },
                None => {},
            }
            start = idx + 1;
        }
        idx = idx + 1;
    }
    devs
}

} // verus!
