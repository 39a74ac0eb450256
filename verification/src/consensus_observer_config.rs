//! The switches of the consensus observer.

use vstd::prelude::*;

verus! {

/// Switches of the consensus observer and publisher of a node.
#[derive(Clone, Debug, PartialEq, Eq, Structural)]
pub struct ConsensusObserverConfig {
    /// Whether the consensus observer is enabled
    pub consensus_observer_enabled: bool,
    /// Whether the consensus publisher is enabled
    pub consensus_publisher_enabled: bool,
    /// Maximum number of pending network messages
    pub max_network_channel_size: u64,
}

impl ConsensusObserverConfig {
    /// Returns true iff the observer or publisher is enabled
    pub fn is_enabled(&self) -> (enabled: bool)
        ensures
            enabled == (self.consensus_observer_enabled || self.consensus_publisher_enabled),
    {
        self.consensus_observer_enabled || self.consensus_publisher_enabled
    }
}

impl Default for ConsensusObserverConfig {
    /// Everything off, and no room for pending messages.
    fn default() -> (config: Self)
        ensures
            !config.consensus_observer_enabled,
            !config.consensus_publisher_enabled,
            config.max_network_channel_size == 0,
    {
        ConsensusObserverConfig {
            consensus_observer_enabled: false,
            consensus_publisher_enabled: false,
            max_network_channel_size: 0,
        }
    }
}

} // verus!
