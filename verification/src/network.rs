//! Shapes of the residual board network: its named sizes and their widths.

use vstd::prelude::*;

verus! {

/// The two trained sizes of the residual network.
#[derive(Clone, Copy, Debug, PartialEq, Eq, Structural)]
pub enum ModelSize {
    Compact,
    Large,
}

impl Default for ModelSize {
    fn default() -> (r: Self)
        ensures
            r == ModelSize::Large,
    {
        ModelSize::Large
    }
}

/// Widths and depths of the residual board network.
#[derive(Clone, Copy, Debug, PartialEq, Eq, Structural)]
pub struct NetworkConfig {
    pub channels: usize,
    pub residual_blocks: usize,
    pub board_embedding: usize,
    pub context_width: usize,
    pub action_width: usize,
    pub value_width: usize,
    pub group_norm_groups: usize,
}

pub open spec fn compact_config() -> NetworkConfig {
    NetworkConfig {
        channels: 24,
        residual_blocks: 2,
        board_embedding: 96,
        context_width: 128,
        action_width: 96,
        value_width: 64,
        group_norm_groups: 8,
    }
}

pub open spec fn large_config() -> NetworkConfig {
    NetworkConfig {
        channels: 64,
        residual_blocks: 6,
        board_embedding: 192,
        context_width: 256,
        action_width: 192,
        value_width: 128,
        group_norm_groups: 8,
    }
}

pub open spec fn tiny_config() -> NetworkConfig {
    NetworkConfig {
        channels: 8,
        residual_blocks: 1,
        board_embedding: 16,
        context_width: 16,
        action_width: 16,
        value_width: 8,
        group_norm_groups: 4,
    }
}

/// The configuration a named size stands for.
pub open spec fn sized_config(size: ModelSize) -> NetworkConfig {
    match size {
        ModelSize::Compact => compact_config(),
        ModelSize::Large => large_config(),
    }
}

impl NetworkConfig {
    pub fn compact() -> (r: Self)
        ensures
            r == compact_config(),
    {
        NetworkConfig {
            channels: 24,
            residual_blocks: 2,
            board_embedding: 96,
            context_width: 128,
            action_width: 96,
            value_width: 64,
            group_norm_groups: 8,
        }
    }

    pub fn large() -> (r: Self)
        ensures
            r == large_config(),
    {
        NetworkConfig {
            channels: 64,
            residual_blocks: 6,
            board_embedding: 192,
            context_width: 256,
            action_width: 192,
            value_width: 128,
            group_norm_groups: 8,
        }
    }

    /// A very small network for quick checks.
    pub fn tiny() -> (r: Self)
        ensures
            r == tiny_config(),
    {
        NetworkConfig {
            channels: 8,
            residual_blocks: 1,
            board_embedding: 16,
            context_width: 16,
            action_width: 16,
            value_width: 8,
            group_norm_groups: 4,
        }
    }
}

impl Default for NetworkConfig {
    fn default() -> (r: Self)
        ensures
            r == large_config(),
    {
        NetworkConfig::large()
    }
}

impl From<ModelSize> for NetworkConfig {
    fn from(value: ModelSize) -> (r: Self) {
        match value {
            ModelSize::Compact => NetworkConfig::compact(),
            ModelSize::Large => NetworkConfig::large(),
        }
    }
}

impl vstd::std_specs::convert::FromSpecImpl<ModelSize> for NetworkConfig {
    open spec fn obeys_from_spec() -> bool {
        true
    }

    open spec fn from_spec(v: ModelSize) -> NetworkConfig {
        sized_config(v)
    }
}

} // verus!
