//! The channels of a program, and what a channel consists of.
use vstd::prelude::*;

use crate::channel::receiver::{ChannelReceiver, ReceiverModel};
use crate::channel::sender::{ChannelSender, SenderModel};
use crate::channel::settings::ChannelSettings;
use crate::ids::{ChannelKind, NetId};

verus! {

/// A channel.
pub struct ChannelContainer {
    pub setting: ChannelSettings,
    pub sender: ChannelSender,
    pub receiver: ChannelReceiver,
}

impl ChannelContainer {
    /// Returns a channel that was not used yet.
    pub fn new(setting: ChannelSettings) -> (r: Self)
        ensures
            r.setting == setting,
            r.sender@ == SenderModel::initial(setting.mode),
            r.receiver@ == ReceiverModel::initial(setting.mode),
            r.sender@.wf() && r.sender@.idle() && r.sender@.serves(setting.mode),
            r.receiver@.wf() && r.receiver@.serves(setting.mode),
    {
        ChannelContainer {
            setting,
            sender: ChannelSender::new(&setting.mode),
            receiver: ChannelReceiver::new(&setting.mode),
        }
    }
}

/// The channels of a program. Both ends of a connection register the same channels in the same
/// order, so that a channel has the same net id on both.
pub struct ChannelRegistry {
    kinds: Vec<ChannelKind>,
    settings: Vec<ChannelSettings>,
}

/// Model of [`ChannelRegistry`]: the channels in the order of their net ids.
#[verifier::ext_equal]
pub struct RegistryModel {
    pub kinds: Seq<ChannelKind>,
    pub settings: Seq<ChannelSettings>,
}

impl View for ChannelRegistry {
    type V = RegistryModel;

    closed spec fn view(&self) -> RegistryModel {
        RegistryModel { kinds: self.kinds@, settings: self.settings@ }
    }
}

impl RegistryModel {
    /// No kind is registered twice, and every channel has a net id.
    pub open spec fn wf(self) -> bool {
        &&& self.kinds.len() == self.settings.len()
        &&& self.kinds.len() <= u16::MAX
        &&& self.kinds.no_duplicates()
    }

    /// The net id of the channel `kind`.
    pub open spec fn net_id(self, kind: ChannelKind) -> NetId
        recommends
            self.kinds.contains(kind),
    {
        self.kinds.index_of(kind) as u16
    }
}

/// The net id of a channel is its position in the registry.
pub proof fn lemma_net_id(registry: RegistryModel, i: int)
    requires
        registry.wf(),
        0 <= i < registry.kinds.len(),
    ensures
        registry.kinds.contains(registry.kinds[i]),
        registry.net_id(registry.kinds[i]) == i,
{
    let kind = registry.kinds[i];
    assert(registry.kinds.contains(kind));
    let j = registry.kinds.index_of(kind);
    assert(registry.kinds[j] == kind && 0 <= j < registry.kinds.len());
}

/// A registered channel is found under its net id.
pub proof fn lemma_kind(registry: RegistryModel, kind: ChannelKind)
    requires
        registry.wf(),
        registry.kinds.contains(kind),
    ensures
        registry.net_id(kind) < registry.kinds.len(),
        registry.kinds[registry.net_id(kind) as int] == kind,
{
    let i = choose|i: int| 0 <= i < registry.kinds.len() && registry.kinds[i] == kind;
    lemma_net_id(registry, i);
}

impl ChannelRegistry {
    /// Returns a registry without channels.
    pub fn new() -> (r: Self)
        ensures
            r@.wf(),
            r@.kinds == Seq::<ChannelKind>::empty(),
            r@.settings == Seq::<ChannelSettings>::empty(),
    {
        ChannelRegistry { kinds: Vec::new(), settings: Vec::new() }
    }

    /// Registers a channel under the next net id. Returns whether it was registered: it is not
    /// where its kind is registered already, or where no net id is left.
    pub fn add_channel(&mut self, kind: ChannelKind, setting: ChannelSettings) -> (r: bool)
        requires
            old(self)@.wf(),
        ensures
            final(self)@.wf(),
            r == (!old(self)@.kinds.contains(kind) && old(self)@.kinds.len() < u16::MAX),
            r ==> {
                &&& final(self)@.kinds == old(self)@.kinds.push(kind)
                &&& final(self)@.settings == old(self)@.settings.push(setting)
            },
            !r ==> final(self)@ == old(self)@,
    {
        if self.get_net_from_kind(kind).is_some() || self.kinds.len() >= u16::MAX as usize {
            return false;
        }
        self.kinds.push(kind);
        self.settings.push(setting);
        proof {
            let before = old(self)@.kinds;
            assert forall|i: int, j: int|
                0 <= i < self.kinds@.len() && 0 <= j < self.kinds@.len() && i != j implies self.kinds@[i]
                != self.kinds@[j] by {
                if i == before.len() {
                    assert(before.contains(before[j]));
                } else if j == before.len() {
                    assert(before.contains(before[i]));
                }
            }
        }
        true
    }

    /// Returns the net id of the channel `kind`.
    pub fn get_net_from_kind(&self, kind: ChannelKind) -> (r: Option<NetId>)
        requires
            self@.wf(),
        ensures
            r == if self@.kinds.contains(kind) {
                Some(self@.net_id(kind))
            } else {
                None
            },
            r matches Some(net_id) ==> net_id < self@.kinds.len() && self@.kinds[net_id as int]
                == kind,
    {
        let mut i: usize = 0;
        while i < self.kinds.len()
            invariant
                self@.wf(),
                i <= self.kinds@.len(),
                self@.kinds == self.kinds@,
                forall|k: int| 0 <= k < i ==> self.kinds@[k] != kind,
            decreases self.kinds@.len() - i,
        {
            if self.kinds[i] == kind {
                proof {
                    lemma_net_id(self@, i as int);
                }
                return Some(i as u16);
            }
            i = i + 1;
        }
        None
    }

    /// Returns the kind of the channel with this net id.
    pub fn get_kind_from_net_id(&self, net_id: NetId) -> (r: Option<ChannelKind>)
        ensures
            r == if net_id < self@.kinds.len() {
                Some(self@.kinds[net_id as int])
            } else {
                None
            },
    {
        if (net_id as usize) < self.kinds.len() {
            Some(self.kinds[net_id as usize])
        } else {
            None
        }
    }

    /// Returns the channels, in the order of their net ids.
    pub fn channels(&self) -> (r: Vec<ChannelContainer>)
        requires
            self@.wf(),
        ensures
            r@.len() == self@.settings.len(),
            forall|i: int|
                0 <= i < r@.len() ==> {
                    let channel = #[trigger] r@[i];
                    let setting = self@.settings[i];
                    &&& channel.setting == setting
                    &&& channel.sender@ == SenderModel::initial(setting.mode)
                    &&& channel.receiver@ == ReceiverModel::initial(setting.mode)
                    &&& channel.sender@.wf() && channel.sender@.idle() && channel.sender@.serves(
                        setting.mode,
                    )
                    &&& channel.receiver@.wf() && channel.receiver@.serves(setting.mode)
                },
    {
        let mut channels: Vec<ChannelContainer> = Vec::new();
        let mut i: usize = 0;
        while i < self.settings.len()
            invariant
                i <= self.settings@.len(),
                channels@.len() == i,
                self@.settings == self.settings@,
                forall|k: int|
                    0 <= k < channels@.len() ==> {
                        let channel = #[trigger] channels@[k];
                        let setting = self@.settings[k];
                        &&& channel.setting == setting
                        &&& channel.sender@ == SenderModel::initial(setting.mode)
                        &&& channel.receiver@ == ReceiverModel::initial(setting.mode)
                        &&& channel.sender@.wf() && channel.sender@.idle()
                            && channel.sender@.serves(setting.mode)
                        &&& channel.receiver@.wf() && channel.receiver@.serves(setting.mode)
                    },
            decreases self.settings@.len() - i,
        {
            channels.push(ChannelContainer::new(self.settings[i]));
            i = i + 1;
        }
        channels
    }
}

impl Clone for ChannelRegistry {
    fn clone(&self) -> (r: Self)
        ensures
            r@ == self@,
    {
        let kinds = self.kinds.clone();
        let settings = vstd::slice::slice_to_vec(self.settings.as_slice());
        assert(kinds@ =~= self.kinds@);
        ChannelRegistry { kinds, settings }
    }
}

} // verus!
