//! Building the kernel's locate parameter block from a location request.

use vstd::prelude::*;

verus! {

/// Where a locate goes.
#[derive(Clone, Copy, Debug)]
pub enum Target {
    File(u64),
    Block(u64),
    Setmark(u64),
    Eod,
}

/// The parameter block an MTIOCRDSPOS-family locate ioctl takes.
#[derive(Clone, Copy, Debug)]
pub struct MtLocate {
    pub flags: u32,
    pub dest_type: u32,
    pub block_address_mode: u32,
    pub partition: i64,
    pub logical_id: u64,
    pub reserved: [u8; 64],
}

/// A locate request under construction.
#[derive(Clone, Copy, Debug)]
pub struct LocationBuilder {
    pub immediate: bool,
    pub to_partition: Option<i64>,
}

/// A finished locate request.
#[derive(Clone, Copy, Debug)]
pub struct Location {
    pub target: Target,
    pub immediate: bool,
    pub to_partition: Option<i64>,
}

impl LocationBuilder {
    /// A request that waits for completion and stays in the partition.
    pub fn new() -> (r: Self)
        ensures
            r.immediate == false && r.to_partition is None,
    {
        LocationBuilder { immediate: false, to_partition: None }
    }

    /// Whether the ioctl should return before the motion finishes.
    pub fn immediate(self, val: bool) -> (r: Self)
        ensures
            r.immediate == val && r.to_partition == self.to_partition,
    {
        LocationBuilder { immediate: val, ..self }
    }

    /// Move to another partition.
    pub fn change_partition(self, partition: i64) -> (r: Self)
        ensures
            r.immediate == self.immediate && r.to_partition == Some(partition),
    {
        LocationBuilder { to_partition: Some(partition), ..self }
    }

    /// Locate to a file number.
    pub fn file(self, file: u64) -> (r: Location)
        ensures
            r.target == Target::File(file) && r.immediate == self.immediate && r.to_partition
                == self.to_partition,
    {
        Location { target: Target::File(file), immediate: self.immediate, to_partition: self.to_partition }
    }

    /// Locate to a block number.
    pub fn block(self, block: u64) -> (r: Location)
        ensures
            r.target == Target::Block(block) && r.immediate == self.immediate && r.to_partition
                == self.to_partition,
    {
        Location { target: Target::Block(block), immediate: self.immediate, to_partition: self.to_partition }
    }

    /// Locate to a setmark.
    pub fn setmark(self, setmark: u64) -> (r: Location)
        ensures
            r.target == Target::Setmark(setmark) && r.immediate == self.immediate
                && r.to_partition == self.to_partition,
    {
        Location { target: Target::Setmark(setmark), immediate: self.immediate, to_partition: self.to_partition }
    }

    /// Locate to the end of data.
    pub fn end_of_data(self) -> (r: Location)
        ensures
            r.target == Target::Eod && r.immediate == self.immediate && r.to_partition
                == self.to_partition,
    {
        Location { target: Target::Eod, immediate: self.immediate, to_partition: self.to_partition }
    }
}

/// The flag word of a request: bit 0 for immediate return, bit 1 for a
/// partition change.
pub open spec fn spec_locate_flags(l: Location) -> u32 {
    (if l.immediate {
        1u32
    } else {
        0u32
    }) | (if l.to_partition is Some {
        2u32
    } else {
        0u32
    })
}

/// The destination code of a target: object 0, file 1, setmark 2, end of
/// data 3.
pub open spec fn spec_dest_type(t: Target) -> u32 {
    match t {
        Target::File(_) => 1,
        Target::Block(_) => 0,
        Target::Setmark(_) => 2,
        Target::Eod => 3,
    }
}

/// The logical id of a target; end of data carries none.
pub open spec fn spec_logical_id(t: Target) -> u64 {
    match t {
        Target::File(n) => n,
        Target::Block(n) => n,
        Target::Setmark(n) => n,
        Target::Eod => 0,
    }
}

impl Location {
    /// The parameter block this request builds: implicit block
    /// addressing, the requested partition or zero, the target's code and
    /// id, and a zeroed reserved area.
    pub fn to_mt_locate(&self) -> (r: MtLocate)
        ensures
            r.flags == spec_locate_flags(*self),
            r.dest_type == spec_dest_type(self.target),
            r.block_address_mode == 0,
            r.partition == self.to_partition.unwrap_or(0),
            r.logical_id == spec_logical_id(self.target),
            forall|i: int| 0 <= i < 64 ==> r.reserved@[i] == 0,
    {
        let mut param = MtLocate {
            flags: 0,
            dest_type: 0,
            block_address_mode: 0,
            partition: 0,
            logical_id: 0,
            reserved: [0u8; 64],
        };
        if self.immediate {
            param.flags = param.flags | 1;
        }
        match self.to_partition {
            Some(p) => {
                param.partition = p;
                param.flags = param.flags | 2;
            },
            None => {},
        }
        match self.target {
            Target::File(n) => {
                param.dest_type = 1;
                param.logical_id = n;
            },
            Target::Block(n) => {
                param.dest_type = 0;
                param.logical_id = n;
            },
            Target::Setmark(n) => {
                param.dest_type = 2;
                param.logical_id = n;
            },
            Target::Eod => {
                param.dest_type = 3;
            },
        }
        proof {
            assert((0u32 | 0u32) == 0u32 && (0u32 | 1u32) == 1u32 && (0u32 | 2u32) == 2u32 && (
            1u32 | 0u32) == 1u32 && (1u32 | 2u32) == 3u32) by (bit_vector);
        }
        param
    }
}

} // verus!
