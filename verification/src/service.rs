//! The decisions of the Web API handlers: which device and property a request
//! names, the backend command that reads or writes it, and what the backend's
//! response means.
use vstd::prelude::*;
use crate::descriptions::DeviceDescription;
use crate::echoinfo::{EchonetDevice, EchonetProperty};
use crate::errors::NetError;
use crate::hex::{self, hex_bytes, hex_digits, upper_hex};
use crate::lineproto::{LineResponse, LineResult, parse_line};
use crate::text::{concat, concat3, owned, str_eq};

verus! {

/// The first device whose identifier (`host:eoj`) is `hosteoj`.
pub fn get_device<'a>(devs: &'a [EchonetDevice], hosteoj: &str) -> (r: Option<&'a EchonetDevice>)
    ensures
        match r {
            Some(d) => exists|i: int|
                0 <= i < devs@.len() && *d == devs@[i] && devs@[i].host@ + ":"@ + devs@[i].eoj@
                    == hosteoj@ && forall|j: int|
                    0 <= j < i ==> (#[trigger] devs@[j]).host@ + ":"@ + devs@[j].eoj@ != hosteoj@,
            None => forall|j: int|
                0 <= j < devs@.len() ==> (#[trigger] devs@[j]).host@ + ":"@ + devs@[j].eoj@ != hosteoj@,
        },
{
    let mut i: usize = 0;
    while i < devs.len()
        invariant
            i <= devs@.len(),
            forall|j: int|
                0 <= j < i ==> (#[trigger] devs@[j]).host@ + ":"@ + devs@[j].eoj@ != hosteoj@,
        decreases devs@.len() - i,
    {
        let id = devs[i].hosteoj();
        if str_eq(id.as_str(), hosteoj) {
            return Some(&devs[i]);
        }
        i = i + 1;
    }
    None
}

/// The first property of a device with the given name.
pub fn get_dev_prop<'a>(dev: &'a EchonetDevice, name: &str) -> (r: Option<&'a EchonetProperty>)
    ensures
        match r {
            Some(p) => exists|i: int|
                0 <= i < dev.properties@.len() && *p == dev.properties@[i] && dev.properties@[i].name@
                    == name@ && forall|j: int|
                    0 <= j < i ==> (#[trigger] dev.properties@[j]).name@ != name@,
            None => forall|j: int|
                0 <= j < dev.properties@.len() ==> (#[trigger] dev.properties@[j]).name@ != name@,
        },
{
    let mut i: usize = 0;
    while i < dev.properties.len()
        invariant
            i <= dev.properties@.len(),
            forall|j: int| 0 <= j < i ==> (#[trigger] dev.properties@[j]).name@ != name@,
        decreases dev.properties@.len() - i,
    {
        if str_eq(dev.properties[i].name.as_str(), name) {
            return Some(&dev.properties[i]);
        }
        i = i + 1;
    }
    None
}

/// The device and property that a request names: `NoDevice` when no instance has
/// the identifier, `NoProperty` when the device has no property of that name.
pub fn locate<'a>(instances: &'a [EchonetDevice], device: &str, property: &str) -> (r: Result<
    (&'a EchonetDevice, &'a EchonetProperty),
    NetError,
>)
    ensures
        match r {
            Ok((d, p)) => (exists|i: int| 0 <= i < instances@.len() && *d == instances@[i])
                && d.host@ + ":"@ + d.eoj@ == device@ && (exists|i: int|
                0 <= i < d.properties@.len() && *p == d.properties@[i]) && p.name@ == property@,
            Err(NetError::NoDevice) => forall|j: int|
                0 <= j < instances@.len() ==> (#[trigger] instances@[j]).host@ + ":"@
                    + instances@[j].eoj@ != device@,
            Err(NetError::NoProperty) => exists|i: int|
                0 <= i < instances@.len() && instances@[i].host@ + ":"@ + instances@[i].eoj@
                    == device@ && forall|j: int|
                    0 <= j < instances@[i].properties@.len() ==> (#[trigger] instances@[i].properties@[j]).name@
                        != property@,
            _ => false,
        },
{
    let dev = match get_device(instances, device) {
        Some(d) => d,
        None => {
            return Err(NetError::NoDevice);
        },
    };
    let prop = match get_dev_prop(dev, property) {
        Some(p) => p,
        None => {
            return Err(NetError::NoProperty);
        },
    };
    Ok((dev, prop))
}

/// The description served for an instance, by its `host:eoj` key.
pub fn find_description<'a>(updated: &'a Vec<(String, DeviceDescription)>, device: &str) -> (r: Result<
    &'a DeviceDescription,
    NetError,
>)
    ensures
        match r {
            Ok(d) => exists|i: int|
                0 <= i < updated@.len() && updated@[i].0@ == device@ && *d == updated@[i].1
                    && forall|j: int| 0 <= j < i ==> (#[trigger] updated@[j]).0@ != device@,
            Err(e) => e is NoDevice && forall|j: int|
                0 <= j < updated@.len() ==> (#[trigger] updated@[j]).0@ != device@,
        },
{
    let mut i: usize = 0;
    while i < updated.len()
        invariant
            i <= updated@.len(),
            forall|j: int| 0 <= j < i ==> (#[trigger] updated@[j]).0@ != device@,
        decreases updated@.len() - i,
    {
        if str_eq(updated[i].0.as_str(), device) {
            return Ok(&updated[i].1);
        }
        i = i + 1;
    }
    Err(NetError::NoDevice)
}

/// The backend command that reads a property: `host:eoj:epc`.
pub fn read_command(dev: &EchonetDevice, prop: &EchonetProperty) -> (r: String)
    ensures
        r@ == dev.host@ + ":"@ + dev.eoj@ + ":"@ + prop.epc@,
{
    let id = dev.hosteoj();
    concat3(id.as_str(), ":", prop.epc.as_str())
}

/// The backend command that writes a property: `host:eoj:epc,0xDATA`.
pub fn write_command(dev: &EchonetDevice, prop: &EchonetProperty, data: Vec<u8>) -> (r: String)
    ensures
        r@ == dev.host@ + ":"@ + dev.eoj@ + ":"@ + prop.epc@ + ","@ + seq!['0', 'x'] + upper_hex(
            data@,
        ),
{
    let id = dev.hosteoj();
    let hex_data = hex::to_string(data);
    let head = concat3(id.as_str(), ":", prop.epc.as_str());
    concat3(head.as_str(), ",", hex_data.as_str())
}

/// The EDT bytes of the response to a read: `Comm` when the line is no response,
/// has no data or its data is no hex string; `ReadNG` when the device refused.
pub fn read_reply(res: &str) -> (r: Result<Vec<u8>, NetError>)
    ensures
        match parse_line(res@) {
            None => r matches Err(NetError::Comm(m)) && m@ == "Bad Line Response"@,
            Some(l) => if l.result == LineResult::NG {
                r matches Err(NetError::ReadNG)
            } else {
                match l.data {
                    None => r matches Err(NetError::Comm(m)) && m@ == "No data"@,
                    Some(d) => match hex_digits(d) {
                        None => r matches Err(NetError::Comm(m)) && m@ == "Data-to-u8"@,
                        Some(ds) => r is Ok && r->Ok_0@ == hex_bytes(ds),
                    },
                }
            },
        },
{
    let lr = match LineResponse::try_from(res) {
        Ok(l) => l,
        Err(_) => {
            return Err(NetError::Comm(owned("Bad Line Response")));
        },
    };
    if !lr.is_ok() {
        return Err(NetError::ReadNG);
    }
    let data_str = match lr.data {
        Some(d) => d,
        None => {
            return Err(NetError::Comm(owned("No data")));
        },
    };
    match hex::to_bytes(data_str) {
        Some(b) => Ok(b),
        None => Err(NetError::Comm(owned("Data-to-u8"))),
    }
}

/// What the response to a write means: `Comm` when the line is no response,
/// `WriteNG` when the device refused.
pub fn write_reply(res: &str) -> (r: Result<(), NetError>)
    ensures
        match parse_line(res@) {
            None => r matches Err(NetError::Comm(m)) && m@ == "Bad Line Response"@,
            Some(l) => if l.result == LineResult::OK {
                r is Ok
            } else {
                r matches Err(NetError::WriteNG)
            },
        },
{
    let lr = match LineResponse::try_from(res) {
        Ok(l) => l,
        Err(_) => {
            return Err(NetError::Comm(owned("Bad Line Response")));
        },
    };
    if lr.is_ok() {
        Ok(())
    } else {
        Err(NetError::WriteNG)
    }
}

} // verus!
