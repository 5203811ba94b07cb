//! Remote procedure call definitions and the replication declarations an
//! actor class is given: their wire sizes and their text.

use crate::network::{
    property_size_bytes, replicated_property_type_label, rpc_target_label, ReplicatedPropertyType, ReplicationMode,
    RpcParam, RpcTarget,
};
use vstd::prelude::*;
use vstd::string::StringExecFns;

verus! {

/// A remote procedure call an actor class offers.
#[derive(Debug, Clone)]
pub struct RpcDefinition {
    pub name: String,
    pub target: RpcTarget,
    pub params: Vec<RpcParam>,
    pub reliable: bool,
    pub requires_authority: bool,
    /// The `f32` call-rate limit in hertz (0 for none), as its bit pattern.
    pub rate_limit_hz: u32,
    pub estimated_bytes: usize,
}

/// `name: type` of one parameter.
pub open spec fn param_text(p: RpcParam) -> Seq<char> {
    p.name@ + ": "@ + replicated_property_type_label(p.param_type)
}

/// The parameters' texts joined by ", ".
pub open spec fn params_text(params: Seq<RpcParam>) -> Seq<char>
    decreases params.len(),
{
    if params.len() == 0 {
        Seq::empty()
    } else if params.len() == 1 {
        param_text(params[0])
    } else {
        params_text(params.drop_last()) + ", "@ + param_text(params.last())
    }
}

/// `name(params) -> target`.
pub open spec fn call_signature_text(rpc: RpcDefinition) -> Seq<char> {
    rpc.name@ + "("@ + params_text(rpc.params@) + ") -> "@ + rpc_target_label(rpc.target)
}

impl RpcDefinition {
    /// A reliable call with no parameters, no authority check and no rate
    /// limit, estimated at eight bytes (its name and overhead).
    pub fn new(name: &str, target: RpcTarget) -> (r: Self)
        ensures
            r.name@ == name@,
            r.target == target,
            r.params@.len() == 0,
            r.reliable,
            !r.requires_authority,
            r.rate_limit_hz == 0,
            r.estimated_bytes == 8,
    {
        RpcDefinition {
            name: name.to_owned(),
            target,
            params: Vec::new(),
            reliable: true,
            requires_authority: false,
            rate_limit_hz: 0,
            estimated_bytes: 8,
        }
    }

    /// Appends a parameter and adds its wire size to the estimate.
    pub fn add_param(self, name: &str, param_type: ReplicatedPropertyType) -> (r: Self)
        requires
            self.estimated_bytes + property_size_bytes(param_type) <= usize::MAX,
        ensures
            r.name == self.name,
            r.target == self.target,
            r.reliable == self.reliable,
            r.requires_authority == self.requires_authority,
            r.rate_limit_hz == self.rate_limit_hz,
            r.estimated_bytes == self.estimated_bytes + property_size_bytes(param_type),
            r.params@.len() == self.params@.len() + 1,
            forall|k: int| 0 <= k < self.params@.len() ==> r.params@[k] == self.params@[k],
            r.params@.last().name@ == name@,
            r.params@.last().param_type == param_type,
    {
        let mut r = self;
        r.estimated_bytes = r.estimated_bytes + param_type.size_bytes();
        r.params.push(RpcParam { name: name.to_owned(), param_type });
        r
    }

    /// `name(p1: type1, p2: type2) -> target label`.
    pub fn call_signature(&self) -> (r: String)
        ensures
            r@ == call_signature_text(*self),
    {
        let mut s = String::new();
        s.append(self.name.as_str());
        s.append("(");
        let ghost head = self.name@ + "("@;
        proof {
            assert(s@ =~= head + params_text(self.params@.take(0)));
        }
        let n = self.params.len();
        for k in 0..n
            invariant
                n == self.params@.len(),
                head == self.name@ + "("@,
                s@ == head + params_text(self.params@.take(k as int)),
        {
            let p = &self.params[k];
            let ghost before = s@;
            if k > 0 {
                s.append(", ");
            }
            s.append(p.name.as_str());
            s.append(": ");
            s.append(p.param_type.label());
            proof {
                let t = self.params@.take(k + 1);
                assert(t.drop_last() =~= self.params@.take(k as int));
                assert(t.last() == *p);
                if k > 0 {
                    assert(s@ =~= head + (params_text(self.params@.take(k as int)) + ", "@ + param_text(*p)));
                } else {
                    assert(t.len() == 1 && t[0] == *p);
                    assert(s@ =~= head + param_text(*p));
                }
            }
        }
        s.append(") -> ");
        s.append(self.target.label());
        proof {
            assert(self.params@.take(n as int) =~= self.params@);
            assert(s@ =~= call_signature_text(*self));
        }
        s
    }
}

/// A replication mode's variant name, as `Debug` prints it.
pub open spec fn replication_mode_name(m: ReplicationMode) -> Seq<char> {
    match m {
        ReplicationMode::Unreliable => "Unreliable"@,
        ReplicationMode::Reliable => "Reliable"@,
        ReplicationMode::ReliableOrdered => "ReliableOrdered"@,
        ReplicationMode::ReliableSequenced => "ReliableSequenced"@,
        ReplicationMode::Multicast => "Multicast"@,
        ReplicationMode::OwnerOnly => "OwnerOnly"@,
        ReplicationMode::ServerOnly => "ServerOnly"@,
        ReplicationMode::Skip => "Skip"@,
    }
}

impl ReplicationMode {
    /// The variant's name, as `Debug` prints it.
    pub fn variant_name(&self) -> (r: &'static str)
        ensures
            r@ == replication_mode_name(*self),
    {
        match self {
            ReplicationMode::Unreliable => "Unreliable",
            ReplicationMode::Reliable => "Reliable",
            ReplicationMode::ReliableOrdered => "ReliableOrdered",
            ReplicationMode::ReliableSequenced => "ReliableSequenced",
            ReplicationMode::Multicast => "Multicast",
            ReplicationMode::OwnerOnly => "OwnerOnly",
            ReplicationMode::ServerOnly => "ServerOnly",
            ReplicationMode::Skip => "Skip",
        }
    }
}

/// An RPC target's variant name, as `Debug` prints it.
pub open spec fn rpc_target_name(t: RpcTarget) -> Seq<char> {
    match t {
        RpcTarget::Server => "Server"@,
        RpcTarget::AllClients => "AllClients"@,
        RpcTarget::AllClientsIncludingSelf => "AllClientsIncludingSelf"@,
        RpcTarget::OwnerClient => "OwnerClient"@,
        RpcTarget::MulticastReliable => "MulticastReliable"@,
        RpcTarget::MulticastUnreliable => "MulticastUnreliable"@,
    }
}

impl RpcTarget {
    /// The variant's name, as `Debug` prints it.
    pub fn variant_name(&self) -> (r: &'static str)
        ensures
            r@ == rpc_target_name(*self),
    {
        match self {
            RpcTarget::Server => "Server",
            RpcTarget::AllClients => "AllClients",
            RpcTarget::AllClientsIncludingSelf => "AllClientsIncludingSelf",
            RpcTarget::OwnerClient => "OwnerClient",
            RpcTarget::MulticastReliable => "MulticastReliable",
            RpcTarget::MulticastUnreliable => "MulticastUnreliable",
        }
    }
}

/// The declaration line of a replicated property: its name, how it is
/// replicated and its wire type.
pub open spec fn property_line(p: (String, ReplicationMode, ReplicatedPropertyType)) -> Seq<char> {
    "// [Replicated("@ + replication_mode_name(p.1) + ")] pub "@ + p.0@ + ": "@ + replicated_property_type_label(p.2)
        + ","@
}

/// The declaration line of an RPC.
pub open spec fn rpc_line(rpc: RpcDefinition) -> Seq<char> {
    "// [RPC("@ + rpc_target_name(rpc.target) + ")] fn "@ + call_signature_text(rpc) + ";"@
}

/// The lines declaring an actor class's replicated properties and RPCs.
pub open spec fn replication_lines(
    class_name: Seq<char>,
    properties: Seq<(String, ReplicationMode, ReplicatedPropertyType)>,
    rpcs: Seq<RpcDefinition>,
) -> Seq<Seq<char>> {
    seq!["// Replicated properties for "@ + class_name] + properties.map_values(
        |p: (String, ReplicationMode, ReplicatedPropertyType)| property_line(p),
    ) + seq![Seq::<char>::empty(), "// RPCs:"@] + rpcs.map_values(|r: RpcDefinition| rpc_line(r))
}

/// Lines joined by line breaks.
pub open spec fn joined_lines(lines: Seq<Seq<char>>) -> Seq<char>
    decreases lines.len(),
{
    if lines.len() == 0 {
        Seq::empty()
    } else if lines.len() == 1 {
        lines[0]
    } else {
        joined_lines(lines.drop_last()) + "\n"@ + lines.last()
    }
}

/// The texts of some strings.
pub open spec fn texts(lines: Seq<String>) -> Seq<Seq<char>> {
    lines.map_values(|s: String| s@)
}

/// Joins lines with line breaks.
fn join_lines(lines: &Vec<String>) -> (r: String)
    ensures
        r@ == joined_lines(texts(lines@)),
{
    let mut s = String::new();
    let n = lines.len();
    for k in 0..n
        invariant
            n == lines@.len(),
            s@ == joined_lines(texts(lines@.take(k as int))),
    {
        let ghost t = texts(lines@.take(k + 1));
        proof {
            assert(t.drop_last() =~= texts(lines@.take(k as int)));
            assert(t.last() == lines@[k as int]@);
        }
        if k > 0 {
            s.append("\n");
        }
        s.append(lines[k].as_str());
        proof {
            if k == 0 {
                assert(s@ =~= joined_lines(t));
            } else {
                assert(s@ =~= joined_lines(t));
            }
        }
    }
    proof {
        assert(lines@.take(n as int) =~= lines@);
    }
    s
}

/// The comment block declaring an actor class's replicated properties (by
/// name, replication mode and wire type) and its RPCs, one per line.
pub fn replication_code(
    class_name: &str,
    properties: &[(String, ReplicationMode, ReplicatedPropertyType)],
    rpcs: &[RpcDefinition],
) -> (r: String)
    ensures
        r@ == joined_lines(replication_lines(class_name@, properties@, rpcs@)),
{
    let mut lines: Vec<String> = Vec::new();
    let mut head = String::new();
    head.append("// Replicated properties for ");
    head.append(class_name);
    lines.push(head);
    for k in 0..properties.len()
        invariant
            texts(lines@) == seq!["// Replicated properties for "@ + class_name@] + properties@.take(k as int).map_values(
                |p: (String, ReplicationMode, ReplicatedPropertyType)| property_line(p),
            ),
    {
        let p = &properties[k];
        let mut line = String::new();
        line.append("// [Replicated(");
        line.append(p.1.variant_name());
        line.append(")] pub ");
        line.append(p.0.as_str());
        line.append(": ");
        line.append(p.2.label());
        line.append(",");
        let ghost before = lines@;
        lines.push(line);
        proof {
            assert(line@ =~= property_line(*p));
            assert(properties@.take(k + 1) =~= properties@.take(k as int).push(*p));
            assert(texts(lines@) =~= texts(before).push(line@));
            assert(texts(lines@) =~= seq!["// Replicated properties for "@ + class_name@] + properties@.take(
                k + 1,
            ).map_values(|p: (String, ReplicationMode, ReplicatedPropertyType)| property_line(p)));
        }
    }
    lines.push(String::new());
    let mut rpc_head = String::new();
    rpc_head.append("// RPCs:");
    lines.push(rpc_head);
    let ghost base = texts(lines@);
    proof {
        assert(properties@.take(properties@.len() as int) =~= properties@);
        assert(base =~= seq!["// Replicated properties for "@ + class_name@] + properties@.map_values(
            |p: (String, ReplicationMode, ReplicatedPropertyType)| property_line(p),
        ) + seq![Seq::<char>::empty(), "// RPCs:"@]);
    }
    for k in 0..rpcs.len()
        invariant
            texts(lines@) == base + rpcs@.take(k as int).map_values(|r: RpcDefinition| rpc_line(r)),
    {
        let rpc = &rpcs[k];
        let mut line = String::new();
        line.append("// [RPC(");
        line.append(rpc.target.variant_name());
        line.append(")] fn ");
        let sig = rpc.call_signature();
        line.append(sig.as_str());
        line.append(";");
        let ghost before = lines@;
        lines.push(line);
        proof {
            assert(line@ =~= rpc_line(*rpc));
            assert(rpcs@.take(k + 1) =~= rpcs@.take(k as int).push(*rpc));
            assert(texts(lines@) =~= texts(before).push(line@));
            assert(texts(lines@) =~= base + rpcs@.take(k + 1).map_values(|r: RpcDefinition| rpc_line(r)));
        }
    }
    proof {
        assert(rpcs@.take(rpcs@.len() as int) =~= rpcs@);
        assert(texts(lines@) =~= replication_lines(class_name@, properties@, rpcs@));
    }
    join_lines(&lines)
}

} // verus!
