//! The closed set of device kinds, with a fallback for labels not modelled.
use vstd::prelude::*;
use crate::text::{owned, str_eq};

verus! {

/// What kind of block device a node is, from its `type` label.
#[derive(Clone, Debug, PartialEq, Eq)]
pub enum DeviceKind {
    /// `disk`
    Disk,
    /// `part`
    Partition,
    /// `loop`
    Loop,
    /// `raid1`
    RaidMirror,
    /// `raid5`
    Raid5,
    /// `raid6`
    Raid6,
    /// `raid0`
    Raid0,
    /// `raid10`
    Raid10,
    /// `lvm`
    LogicalVolume,
    /// `crypt`
    EncryptedMapper,
    /// `rom`
    Optical,
    /// Any other label, kept as it was reported.
    Unrecognized(String),
}

/// Whether `l` is the label of one of the modelled kinds.
pub open spec fn is_known_label(l: Seq<char>) -> bool {
    ||| l == "disk"@
    ||| l == "part"@
    ||| l == "loop"@
    ||| l == "raid1"@
    ||| l == "raid5"@
    ||| l == "raid6"@
    ||| l == "raid0"@
    ||| l == "raid10"@
    ||| l == "lvm"@
    ||| l == "crypt"@
    ||| l == "rom"@
}

/// A kind is seen as its wire label.
impl View for DeviceKind {
    type V = Seq<char>;

    open spec fn view(&self) -> Seq<char> {
        match self {
            DeviceKind::Disk => "disk"@,
            DeviceKind::Partition => "part"@,
            DeviceKind::Loop => "loop"@,
            DeviceKind::RaidMirror => "raid1"@,
            DeviceKind::Raid5 => "raid5"@,
            DeviceKind::Raid6 => "raid6"@,
            DeviceKind::Raid0 => "raid0"@,
            DeviceKind::Raid10 => "raid10"@,
            DeviceKind::LogicalVolume => "lvm"@,
            DeviceKind::EncryptedMapper => "crypt"@,
            DeviceKind::Optical => "rom"@,
            DeviceKind::Unrecognized(l) => l@,
        }
    }
}

impl DeviceKind {
    /// A fallback kind never carries the label of a modelled kind, so the
    /// label alone decides the variant.
    pub open spec fn wf(&self) -> bool {
        self matches DeviceKind::Unrecognized(l) ==> !is_known_label(l@)
    }

    /// Classifies a label by exact match; every label gets a kind.
    pub fn classify(label: &str) -> (r: DeviceKind)
        ensures
            r@ == label@,
            r.wf(),
    {
        if str_eq(label, "disk") {
            DeviceKind::Disk
        } else if str_eq(label, "part") {
            DeviceKind::Partition
        } else if str_eq(label, "loop") {
            DeviceKind::Loop
        } else if str_eq(label, "raid1") {
            DeviceKind::RaidMirror
        } else if str_eq(label, "raid5") {
            DeviceKind::Raid5
        } else if str_eq(label, "raid6") {
            DeviceKind::Raid6
        } else if str_eq(label, "raid0") {
            DeviceKind::Raid0
        } else if str_eq(label, "raid10") {
            DeviceKind::Raid10
        } else if str_eq(label, "lvm") {
            DeviceKind::LogicalVolume
        } else if str_eq(label, "crypt") {
            DeviceKind::EncryptedMapper
        } else if str_eq(label, "rom") {
            DeviceKind::Optical
        } else {
            DeviceKind::Unrecognized(owned(label))
        }
    }

    /// The wire label of this kind.
    pub fn label(&self) -> (r: String)
        ensures
            r@ == self@,
    {
        match self {
            DeviceKind::Disk => owned("disk"),
            DeviceKind::Partition => owned("part"),
            DeviceKind::Loop => owned("loop"),
            DeviceKind::RaidMirror => owned("raid1"),
            DeviceKind::Raid5 => owned("raid5"),
            DeviceKind::Raid6 => owned("raid6"),
            DeviceKind::Raid0 => owned("raid0"),
            DeviceKind::Raid10 => owned("raid10"),
            DeviceKind::LogicalVolume => owned("lvm"),
            DeviceKind::EncryptedMapper => owned("crypt"),
            DeviceKind::Optical => owned("rom"),
            DeviceKind::Unrecognized(l) => l.clone(),
        }
    }
}

} // verus!
