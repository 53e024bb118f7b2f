//! D3D12 root signature 1.1 layout with static samplers, and its root cost.

use vstd::prelude::*;

verus! {

/// Kind of a root parameter.
#[derive(Debug, Clone, Copy, PartialEq, Eq)]
pub enum RootParamType {
    Constants,
    DescriptorTable,
    RootDescriptor,
    StaticSampler,
}

#[derive(Debug, Clone)]
pub struct RootParameter {
    pub param_type: RootParamType,
    pub shader_visibility: u32,
    pub num_descriptors: u32,
    pub register: u32,
    pub space: u32,
}

#[derive(Debug, Clone)]
pub struct StaticSampler {
    pub filter: u32,
    pub address_u: u32,
    pub address_v: u32,
    pub address_w: u32,
    pub shader_register: u32,
    pub register_space: u32,
}

#[derive(Debug, Clone)]
pub struct OptimizedRootSignature {
    pub params: Vec<RootParameter>,
    pub static_samplers: Vec<StaticSampler>,
    pub flags: u32,
}

/// Root cost of one parameter in DWORDs: constants cost their count, a table
/// 1, a root descriptor 2, a static sampler nothing.
pub open spec fn param_cost(p: RootParameter) -> nat {
    match p.param_type {
        RootParamType::Constants => p.num_descriptors as nat,
        RootParamType::DescriptorTable => 1,
        RootParamType::RootDescriptor => 2,
        RootParamType::StaticSampler => 0,
    }
}

/// Total root cost of a parameter list.
pub open spec fn total_cost(ps: Seq<RootParameter>) -> nat
    decreases ps.len(),
{
    if ps.len() == 0 {
        0
    } else {
        total_cost(ps.drop_last()) + param_cost(ps.last())
    }
}

/// DENY_HULL (0x4) | DENY_DOMAIN (0x8) | DENY_GEOMETRY (0x10).
pub const GRAPHICS_ROOT_FLAGS: u32 = 0x1C;

impl OptimizedRootSignature {
    /// The graphics layout: camera matrix as 16 root constants (b0), bindless
    /// textures as one table of 1024 (t0), material buffer as a root
    /// descriptor (b1); a linear-wrap and a point-wrap static sampler.
    pub fn rs_graphics() -> (rs: Self)
        ensures
            rs.params@ == seq![
                RootParameter { param_type: RootParamType::Constants, shader_visibility: 0, num_descriptors: 16, register: 0, space: 0 },
                RootParameter { param_type: RootParamType::DescriptorTable, shader_visibility: 0, num_descriptors: 1024, register: 0, space: 0 },
                RootParameter { param_type: RootParamType::RootDescriptor, shader_visibility: 0, num_descriptors: 1, register: 1, space: 0 },
            ],
            rs.static_samplers@ == seq![
                StaticSampler { filter: 0, address_u: 1, address_v: 1, address_w: 1, shader_register: 0, register_space: 0 },
                StaticSampler { filter: 1, address_u: 1, address_v: 1, address_w: 1, shader_register: 1, register_space: 0 },
            ],
            rs.flags == GRAPHICS_ROOT_FLAGS,
            total_cost(rs.params@) == 19,
    {
        let params = vec![
            RootParameter { param_type: RootParamType::Constants, shader_visibility: 0, num_descriptors: 16, register: 0, space: 0 },
            RootParameter { param_type: RootParamType::DescriptorTable, shader_visibility: 0, num_descriptors: 1024, register: 0, space: 0 },
            RootParameter { param_type: RootParamType::RootDescriptor, shader_visibility: 0, num_descriptors: 1, register: 1, space: 0 },
        ];
        let static_samplers = vec![
            StaticSampler { filter: 0, address_u: 1, address_v: 1, address_w: 1, shader_register: 0, register_space: 0 },
            StaticSampler { filter: 1, address_u: 1, address_v: 1, address_w: 1, shader_register: 1, register_space: 0 },
        ];
        let rs = Self { params, static_samplers, flags: GRAPHICS_ROOT_FLAGS };
        assert(rs.params@ =~= seq![
            RootParameter { param_type: RootParamType::Constants, shader_visibility: 0, num_descriptors: 16, register: 0, space: 0 },
            RootParameter { param_type: RootParamType::DescriptorTable, shader_visibility: 0, num_descriptors: 1024, register: 0, space: 0 },
            RootParameter { param_type: RootParamType::RootDescriptor, shader_visibility: 0, num_descriptors: 1, register: 1, space: 0 },
        ]);
        assert(rs.static_samplers@ =~= seq![
            StaticSampler { filter: 0, address_u: 1, address_v: 1, address_w: 1, shader_register: 0, register_space: 0 },
            StaticSampler { filter: 1, address_u: 1, address_v: 1, address_w: 1, shader_register: 1, register_space: 0 },
        ]);
        proof {
            reveal_with_fuel(total_cost, 4);
        }
        rs
    }

    /// Total root cost in DWORDs.
    pub fn root_cost(&self) -> (c: u32)
        requires
            total_cost(self.params@) <= u32::MAX,
        ensures
            c == total_cost(self.params@),
    {
        let mut sum: u32 = 0;
        let mut i: usize = 0;
        assert(self.params@.take(0) =~= Seq::<RootParameter>::empty());
        while i < self.params.len()
            invariant
                i <= self.params@.len(),
                total_cost(self.params@) <= u32::MAX,
                sum == total_cost(self.params@.take(i as int)),
            decreases self.params@.len() - i,
        {
            proof {
                assert(self.params@.take(i + 1).drop_last() =~= self.params@.take(i as int));
                lemma_total_cost_prefix(self.params@, i + 1);
            }
            let p = &self.params[i];
            let c = match p.param_type {
                RootParamType::Constants => p.num_descriptors,
                RootParamType::DescriptorTable => 1,
                RootParamType::RootDescriptor => 2,
                RootParamType::StaticSampler => 0,
            };
            sum = sum + c;
            i += 1;
        }
        assert(self.params@.take(i as int) =~= self.params@);
        sum
    }
}

proof fn lemma_total_cost_prefix(ps: Seq<RootParameter>, k: int)
    requires
        0 <= k <= ps.len(),
    ensures
        total_cost(ps.take(k)) <= total_cost(ps),
    decreases ps.len() - k,
{
    if k < ps.len() {
        assert(ps.take(k + 1).drop_last() =~= ps.take(k));
        lemma_total_cost_prefix(ps, k + 1);
    } else {
        assert(ps.take(k) =~= ps);
    }
}

} // verus!
