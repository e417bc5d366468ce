//! Identifiers of virtual hosts and of shards.

use vstd::prelude::*;
use vstd::string::*;

use crate::text::{decimal, decimal_text, push_decimal};

verus! {

/// The global number of a virtual host. Hosts are numbered from zero in configuration order.
#[derive(Clone, Copy, Debug, PartialEq, Eq, PartialOrd, Ord, Hash, Structural)]
pub struct HostId(pub u32);

/// The number of a shard: one part of the simulation, run by one process.
#[derive(Clone, Copy, Debug, PartialEq, Eq, PartialOrd, Ord, Hash, Structural)]
pub struct ShardId(pub u32);

/// The number of the shard of a run that is not split.
pub const DEFAULT_SHARD_NUMBER: u32 = 0;

/// The shard of a run that is not split.
pub fn default_shard_id() -> (id: ShardId)
    ensures
        id == ShardId(DEFAULT_SHARD_NUMBER),
        id.0 == 0,
{
    ShardId(DEFAULT_SHARD_NUMBER)
}

impl From<u32> for HostId {
    fn from(v: u32) -> (id: Self) {
        HostId(v)
    }
}

impl vstd::std_specs::convert::FromSpecImpl<u32> for HostId {
    open spec fn obeys_from_spec() -> bool {
        true
    }

    open spec fn from_spec(v: u32) -> Self {
        HostId(v)
    }
}

impl From<HostId> for u32 {
    fn from(id: HostId) -> (v: u32) {
        id.0
    }
}

impl vstd::std_specs::convert::FromSpecImpl<HostId> for u32 {
    open spec fn obeys_from_spec() -> bool {
        true
    }

    open spec fn from_spec(id: HostId) -> u32 {
        id.0
    }
}

impl From<u32> for ShardId {
    fn from(v: u32) -> (id: Self) {
        ShardId(v)
    }
}

impl vstd::std_specs::convert::FromSpecImpl<u32> for ShardId {
    open spec fn obeys_from_spec() -> bool {
        true
    }

    open spec fn from_spec(v: u32) -> Self {
        ShardId(v)
    }
}

impl From<ShardId> for u32 {
    fn from(id: ShardId) -> (v: u32) {
        id.0
    }
}

impl vstd::std_specs::convert::FromSpecImpl<ShardId> for u32 {
    open spec fn obeys_from_spec() -> bool {
        true
    }

    open spec fn from_spec(id: ShardId) -> u32 {
        id.0
    }
}

impl HostId {
    /// How diagnostics show a host: `HostId(7)`.
    pub open spec fn shown(self) -> Seq<char> {
        "HostId("@ + decimal(self.0 as nat) + ")"@
    }

    /// Appends what `shown` says.
    pub fn push_shown(self, out: &mut String)
        ensures
            final(out)@ == old(out)@ + self.shown(),
    {
        out.append("HostId(");
        push_decimal(out, self.0 as u64);
        out.append(")");
        assert(out@ =~= old(out)@ + self.shown());
    }
}

impl ShardId {
    /// The shard number as an index.
    pub fn as_usize(self) -> (index: usize)
        ensures
            index == self.0,
    {
        self.0 as usize
    }

    /// The shard number in decimal.
    pub fn to_string(&self) -> (text: String)
        ensures
            text@ == decimal(self.0 as nat),
    {
        decimal_text(self.0 as u64)
    }

    /// How diagnostics show a shard: `ShardId(2)`.
    pub open spec fn shown(self) -> Seq<char> {
        "ShardId("@ + decimal(self.0 as nat) + ")"@
    }

    /// Appends what `shown` says.
    pub fn push_shown(self, out: &mut String)
        ensures
            final(out)@ == old(out)@ + self.shown(),
    {
        out.append("ShardId(");
        push_decimal(out, self.0 as u64);
        out.append(")");
        assert(out@ =~= old(out)@ + self.shown());
    }
}

/// The forms in which hosts and shards are shown tell the two apart.
pub proof fn law_shown_ids(number: u32)
    ensures
        HostId(number).shown() == "HostId("@ + decimal(number as nat) + ")"@,
        ShardId(number).shown() == "ShardId("@ + decimal(number as nat) + ")"@,
{
}

} // verus!
