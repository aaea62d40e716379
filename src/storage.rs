//! Storage discovery: which block devices become drive pages, and what the
//! storage service's added and removed events mean for them.
use vstd::prelude::*;

use crate::registry::{step, DriveEvent};
use crate::text::{decode_utf8, same_text, starts_with_text, strip_nul, utf8_text, without_nul};

verus! {

/// The object path that stands for "no object".
pub const ROOT_PATH: &'static str = "/";

/// Device nodes of optical drives start with this.
pub const OPTICAL_NODE_PREFIX: &'static str = "/dev/sr";

/// The storage service's interface name of a drive object.
pub const DRIVE_INTERFACE: &'static str = "org.freedesktop.UDisks2.Drive";

/// What a block device is, as far as the window is concerned.
#[derive(Clone, Copy, Debug, PartialEq, Eq, Structural)]
pub enum BlockRole {
    Partition,
    Swapspace,
    EncryptedBacking,
    PlainDrive,
}

/// The role that the probes of a block device give it: a partition name
/// first, then an active swap flag, then a crypto backing device other than
/// the root path; a device with none of these is a plain drive.
pub open spec fn role_of(partition: bool, swapspace: bool, crypto_backing: Seq<char>) -> BlockRole {
    if partition {
        BlockRole::Partition
    } else if swapspace {
        BlockRole::Swapspace
    } else if crypto_backing != ROOT_PATH@ {
        BlockRole::EncryptedBacking
    } else {
        BlockRole::PlainDrive
    }
}

/// Classifies a block device from its three probes.
pub fn classify_block(partition: bool, swapspace: bool, crypto_backing: &str) -> (r: BlockRole)
    ensures
        r == role_of(partition, swapspace, crypto_backing@),
        r is PlainDrive <==> !partition && !swapspace && crypto_backing@ == ROOT_PATH@,
{
    if partition {
        BlockRole::Partition
    } else if swapspace {
        BlockRole::Swapspace
    } else if !same_text(crypto_backing, ROOT_PATH) {
        BlockRole::EncryptedBacking
    } else {
        BlockRole::PlainDrive
    }
}

/// Every block device gets exactly one role, and only a device with all three
/// probes negative is a plain drive.
pub proof fn lemma_one_role(partition: bool, swapspace: bool, crypto_backing: Seq<char>)
    ensures
        ({
            let r = role_of(partition, swapspace, crypto_backing);
            &&& r is Partition ==> !(r is Swapspace || r is EncryptedBacking || r is PlainDrive)
            &&& r is Swapspace ==> !(r is Partition || r is EncryptedBacking || r is PlainDrive)
            &&& r is EncryptedBacking ==> !(r is Partition || r is Swapspace || r is PlainDrive)
            &&& r is PlainDrive ==> !(r is Partition || r is Swapspace || r is EncryptedBacking)
            &&& (r is Partition || r is Swapspace || r is EncryptedBacking || r is PlainDrive)
            &&& (r is PlainDrive <==> !partition && !swapspace && crypto_backing == ROOT_PATH@)
        }),
{
}

/// The displayed facts of a drive that the storage service gives directly.
#[derive(Debug)]
pub struct DriveDescriptor {
    /// The drive object's path: the key that its page is held under.
    pub key: String,
    /// The device node, such as `/dev/sda`.
    pub device: String,
    pub writable: bool,
    /// Whether the device node names an optical drive.
    pub optical: bool,
}

/// A device node that could not be read as text.
#[derive(Clone, Copy, Debug, PartialEq, Eq, Structural)]
pub enum DecodeError {
    DeviceNotUtf8,
}

/// Whether a device node names an optical drive.
pub open spec fn is_optical_node(device: Seq<char>) -> bool {
    OPTICAL_NODE_PREFIX@.len() <= device.len() && device.subrange(0, OPTICAL_NODE_PREFIX@.len() as int)
        == OPTICAL_NODE_PREFIX@
}

/// `d` describes the drive at `key` with device node `device` and the given
/// read-only flag; an unknown flag counts as writable.
pub open spec fn describes(
    d: DriveDescriptor,
    key: Seq<char>,
    device: Seq<char>,
    read_only: Option<bool>,
) -> bool {
    &&& d.key@ == key
    &&& d.device@ == device
    &&& d.writable == (read_only != Some(true))
    &&& d.optical == is_optical_node(device)
}

/// Builds the descriptor of a drive from its already decoded device node.
pub fn describe_drive(key: String, device: String, read_only: Option<bool>) -> (r: DriveDescriptor)
    ensures
        describes(r, key@, device@, read_only),
{
    let optical = starts_with_text(device.as_str(), OPTICAL_NODE_PREFIX);
    let writable = match read_only {
        Some(ro) => !ro,
        None => true,
    };
    DriveDescriptor { key, device, writable, optical }
}

/// The text of a device node property: an absent property reads as empty
/// text; present bytes lose their NUL bytes and are decoded as UTF-8.
pub open spec fn device_text(bytes: Option<Seq<u8>>) -> Option<Seq<char>> {
    match bytes {
        Some(b) => utf8_text(without_nul(b)),
        None => Some(Seq::empty()),
    }
}

/// The view of an optional byte vector.
pub open spec fn bytes_view(bytes: Option<Vec<u8>>) -> Option<Seq<u8>> {
    match bytes {
        Some(b) => Some(b@),
        None => None,
    }
}

/// Reads a device node property as text.
pub fn device_node(bytes: Option<Vec<u8>>) -> (r: Result<String, DecodeError>)
    ensures
        match device_text(bytes_view(bytes)) {
            Some(t) => r is Ok && r->Ok_0@ == t,
            None => r == Err::<String, DecodeError>(DecodeError::DeviceNotUtf8),
        },
{
    match bytes {
        Some(b) => {
            let kept = strip_nul(&b);
            match decode_utf8(kept) {
                Some(s) => Ok(s),
                None => Err(DecodeError::DeviceNotUtf8),
            }
        },
        None => {
            let s = String::new();
            assert(s@ =~= Seq::<char>::empty());
            Ok(s)
        },
    }
}

/// What the full scan learned of one block device.
#[derive(Debug)]
pub struct BlockProbe {
    /// The partition probe found a name.
    pub partition: bool,
    /// The swap probe found an active flag.
    pub swapspace: bool,
    pub crypto_backing_device: String,
    /// The path of the drive object that the block device belongs to.
    pub drive: String,
    /// The raw device node property, if it could be read.
    pub device: Option<Vec<u8>>,
    /// The read-only property, if it could be read.
    pub read_only: Option<bool>,
}

/// What a scanned block device yields: no drive unless it is a plain drive;
/// for a plain drive, its descriptor keyed by the drive path, or an error
/// where its device node is not text.
pub open spec fn scan_result_ok(p: BlockProbe, r: Result<Option<DriveDescriptor>, DecodeError>) -> bool {
    if role_of(p.partition, p.swapspace, p.crypto_backing_device@) != BlockRole::PlainDrive {
        r is Ok && r->Ok_0 is None
    } else {
        match device_text(bytes_view(p.device)) {
            Some(t) => r is Ok && r->Ok_0 is Some && describes(r->Ok_0->Some_0, p.drive@, t, p.read_only),
            None => r == Err::<Option<DriveDescriptor>, DecodeError>(DecodeError::DeviceNotUtf8),
        }
    }
}

/// Turns the probes of one scanned block device into a drive, if it is one.
pub fn drive_from_probe(p: BlockProbe) -> (r: Result<Option<DriveDescriptor>, DecodeError>)
    ensures
        scan_result_ok(p, r),
{
    let role = classify_block(p.partition, p.swapspace, p.crypto_backing_device.as_str());
    match role {
        BlockRole::PlainDrive => {
            match device_node(p.device) {
                Ok(device) => Ok(Some(describe_drive(p.drive, device, p.read_only))),
                Err(e) => Err(e),
            }
        },
        _ => Ok(None),
    }
}

/// The block interface's properties carried by an "interfaces added" event.
#[derive(Debug)]
pub struct BlockProperties {
    /// The `Drive` property, where it is an object path.
    pub drive: Option<String>,
    /// The `Device` property's elements; `None` for an element that is not a
    /// byte.
    pub device: Option<Vec<Option<u8>>>,
    /// The `ReadOnly` property, where it is a boolean.
    pub read_only: Option<bool>,
    /// The `CryptoBackingDevice` property, where it is an object path.
    pub crypto_backing_device: Option<String>,
}

/// An "interfaces added" event of the storage service.
#[derive(Debug)]
pub struct InterfacesAdded {
    /// The path of the object that gained interfaces.
    pub object_path: String,
    /// The object gained the partition interface.
    pub partition: bool,
    /// The object gained the swap space interface.
    pub swapspace: bool,
    /// The object gained the block interface, with these properties.
    pub block: Option<BlockProperties>,
}

/// The byte that stands for a device property element that is not a byte.
pub const NOT_A_BYTE: u8 = 63;

/// The bytes of a device property, with every element that is not a byte
/// read as `NOT_A_BYTE`.
pub open spec fn unpacked(elems: Seq<Option<u8>>) -> Seq<u8> {
    elems.map_values(|e: Option<u8>| match e {
        Some(b) => b,
        None => NOT_A_BYTE,
    })
}

/// The view of an optional device property.
pub open spec fn elems_view(elems: Option<Vec<Option<u8>>>) -> Option<Seq<u8>> {
    match elems {
        Some(v) => Some(unpacked(v@)),
        None => None,
    }
}

/// Reads each element of a device property as a byte.
pub fn unpack_device(elems: &Vec<Option<u8>>) -> (r: Vec<u8>)
    ensures
        r@ == unpacked(elems@),
{
    let mut r: Vec<u8> = Vec::new();
    let mut i: usize = 0;
    while i < elems.len()
        invariant
            i <= elems@.len(),
            r@ == unpacked(elems@.subrange(0, i as int)),
        decreases elems@.len() - i,
    {
        let b = match elems[i] {
            Some(b) => b,
            None => NOT_A_BYTE,
        };
        r.push(b);
        i = i + 1;
        assert(r@ =~= unpacked(elems@.subrange(0, i as int)));
    }
    assert(elems@ =~= elems@.subrange(0, elems@.len() as int));
    r
}

/// The crypto backing device that an added block reports; an absent property
/// means none.
pub open spec fn backing_of(b: BlockProperties) -> Seq<char> {
    match b.crypto_backing_device {
        Some(c) => c@,
        None => ROOT_PATH@,
    }
}

/// The drive path under which an added event registers a page: only an
/// object with the block interface, a drive property, and no partition, swap
/// space or crypto backing device gives one.
pub open spec fn added_drive_key(ev: InterfacesAdded) -> Option<Seq<char>> {
    match ev.block {
        Some(b) => match b.drive {
            Some(d) => if role_of(ev.partition, ev.swapspace, backing_of(b)) == BlockRole::PlainDrive {
                Some(d@)
            } else {
                None
            },
            None => None,
        },
        None => None,
    }
}

/// What an added event yields: no drive unless `added_drive_key` gives one;
/// then the descriptor built from the event's own properties, keyed by the
/// drive path, or an error where the device node is not text.
pub open spec fn added_result_ok(ev: InterfacesAdded, r: Result<Option<DriveDescriptor>, DecodeError>) -> bool {
    match added_drive_key(ev) {
        None => r is Ok && r->Ok_0 is None,
        Some(key) => {
            let b = ev.block->Some_0;
            match device_text(elems_view(b.device)) {
                Some(t) => r is Ok && r->Ok_0 is Some && describes(r->Ok_0->Some_0, key, t, b.read_only),
                None => r == Err::<Option<DriveDescriptor>, DecodeError>(DecodeError::DeviceNotUtf8),
            }
        },
    }
}

/// Reads a drive out of an "interfaces added" event without asking the
/// service anything more.
pub fn drive_from_added(ev: InterfacesAdded) -> (r: Result<Option<DriveDescriptor>, DecodeError>)
    ensures
        added_result_ok(ev, r),
{
    match ev.block {
        None => Ok(None),
        Some(b) => {
            let role = match &b.crypto_backing_device {
                Some(c) => classify_block(ev.partition, ev.swapspace, c.as_str()),
                None => classify_block(ev.partition, ev.swapspace, ROOT_PATH),
            };
            match b.drive {
                None => Ok(None),
                Some(d) => {
                    if role != BlockRole::PlainDrive {
                        return Ok(None);
                    }
                    let bytes = match &b.device {
                        Some(elems) => Some(unpack_device(elems)),
                        None => None,
                    };
                    match device_node(bytes) {
                        Ok(device) => Ok(Some(describe_drive(d, device, b.read_only))),
                        Err(e) => Err(e),
                    }
                },
            }
        },
    }
}

/// Whether a list of interface names holds the drive interface.
pub open spec fn names_drive(interfaces: Seq<String>) -> bool {
    exists|i: int| 0 <= i < interfaces.len() && #[trigger] interfaces[i]@ == DRIVE_INTERFACE@
}

/// Reads an "interfaces removed" event: the object at `object_path` stops
/// being a drive exactly when the drive interface is among those removed, and
/// then the page held under that drive path goes.
pub fn drive_removed<P>(object_path: String, interfaces: &Vec<String>) -> (r: Option<DriveEvent<P>>)
    ensures
        names_drive(interfaces@) ==> (r matches Some(DriveEvent::Removed { key }) && key@ == object_path@),
        !names_drive(interfaces@) ==> r is None,
{
    let mut i: usize = 0;
    while i < interfaces.len()
        invariant
            i <= interfaces@.len(),
            forall|j: int| 0 <= j < i ==> #[trigger] interfaces@[j]@ != DRIVE_INTERFACE@,
        decreases interfaces@.len() - i,
    {
        if same_text(interfaces[i].as_str(), DRIVE_INTERFACE) {
            return Some(DriveEvent::Removed { key: object_path });
        }
        i = i + 1;
    }
    None
}

/// A drive's page is held under the drive's own path, whatever object the
/// added event was about; a later removal naming that drive path takes out
/// exactly that page and leaves every other page as it was.
pub proof fn lemma_removed_by_drive_path<P>(
    m: Map<Seq<char>, P>,
    ev: InterfacesAdded,
    d: DriveDescriptor,
    page: P,
    removal: DriveEvent<P>,
)
    requires
        added_result_ok(ev, Ok(Some(d))),
        removal matches DriveEvent::Removed { key } && key@ == d.key@,
    ensures
        added_drive_key(ev) == Some(d.key@),
        step(step(m, DriveEvent::Added { key: d.key, page }), removal) == m.remove(d.key@),
{
    assert(step(step(m, DriveEvent::Added { key: d.key, page }), removal) =~= m.remove(d.key@));
}

} // verus!
