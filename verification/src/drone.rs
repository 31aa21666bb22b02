//! A one-shot drone: it senses, decides, locks on and expends itself on a kill.
use vstd::prelude::*;
use arrayvec::ArrayVec;
use crate::contact::{
    clear_drone_slots, clear_target_slots, drone_slots, drone_slots_as_slice, new_drone_slots,
    new_target_slots, target_slots, target_slots_as_slice, DroneContact, TargetContact,
    MAX_DRONE_CONTACTS, MAX_TARGET_CONTACTS,
};
use crate::ids::DroneId;

verus! {

#[derive(Clone, Copy, Debug, PartialEq, Eq, Structural)]
pub enum DroneState {
    Live,
    Expended { at_tick: u64 },
}

pub struct Drone {
    pub id: DroneId,
    /// Bit pattern of the seeker range (see `order`).
    pub detection_range: u64,
    pub state: DroneState,
    pub targets: ArrayVec<TargetContact, MAX_TARGET_CONTACTS>,
    pub drones: ArrayVec<DroneContact, MAX_DRONE_CONTACTS>,
    pub last_compute_ops: u64,
}

impl Drone {
    /// The enemy contacts of the last sensing.
    pub open spec fn nearby_targets(&self) -> Seq<TargetContact> {
        target_slots(self.targets)
    }

    /// The friendly contacts of the last sensing.
    pub open spec fn nearby_drones(&self) -> Seq<DroneContact> {
        drone_slots(self.drones)
    }

    /// The operation count of the last decision.
    pub open spec fn spec_last_ops(&self) -> u64 {
        self.last_compute_ops
    }

    pub(crate) fn new(id: DroneId, detection_range: u64) -> (d: Self)
        ensures
            d.id == id,
            d.detection_range == detection_range,
            d.state == DroneState::Live,
            d.nearby_targets() == Seq::<TargetContact>::empty(),
            d.nearby_drones() == Seq::<DroneContact>::empty(),
            d.spec_last_ops() == 0,
    {
        Drone {
            id,
            detection_range,
            state: DroneState::Live,
            targets: new_target_slots(),
            drones: new_drone_slots(),
            last_compute_ops: 0,
        }
    }

    pub fn is_live(&self) -> (r: bool)
        ensures
            r == (self.state == DroneState::Live),
    {
        match self.state {
            DroneState::Live => true,
            DroneState::Expended { .. } => false,
        }
    }

    pub fn get_nearby_targets(&self) -> (r: &[TargetContact])
        ensures
            r@ == self.nearby_targets(),
    {
        target_slots_as_slice(&self.targets)
    }

    pub fn get_nearby_drones(&self) -> (r: &[DroneContact])
        ensures
            r@ == self.nearby_drones(),
    {
        drone_slots_as_slice(&self.drones)
    }

    pub fn last_compute_ops(&self) -> (r: u64)
        ensures
            r == self.spec_last_ops(),
    {
        self.last_compute_ops
    }

    pub(crate) fn set_contacts(
        &mut self,
        targets: ArrayVec<TargetContact, MAX_TARGET_CONTACTS>,
        drones: ArrayVec<DroneContact, MAX_DRONE_CONTACTS>,
    )
        ensures
            final(self).id == old(self).id,
            final(self).detection_range == old(self).detection_range,
            final(self).state == old(self).state,
            final(self).spec_last_ops() == old(self).spec_last_ops(),
            final(self).nearby_targets() == target_slots(targets),
            final(self).nearby_drones() == drone_slots(drones),
    {
        self.targets = targets;
        self.drones = drones;
    }

    pub(crate) fn set_last_compute_ops(&mut self, ops: u64)
        ensures
            final(self).id == old(self).id,
            final(self).detection_range == old(self).detection_range,
            final(self).state == old(self).state,
            final(self).spec_last_ops() == ops,
            final(self).nearby_targets() == old(self).nearby_targets(),
            final(self).nearby_drones() == old(self).nearby_drones(),
    {
        self.last_compute_ops = ops;
    }

    /// The drone expends itself at `at_tick` and forgets its contacts.
    pub(crate) fn expend(&mut self, at_tick: u64)
        ensures
            final(self).id == old(self).id,
            final(self).detection_range == old(self).detection_range,
            final(self).state == (DroneState::Expended { at_tick }),
            final(self).spec_last_ops() == old(self).spec_last_ops(),
            final(self).nearby_targets() == Seq::<TargetContact>::empty(),
            final(self).nearby_drones() == Seq::<DroneContact>::empty(),
    {
        self.state = DroneState::Expended { at_tick };
        self.clear_contacts();
    }

    pub(crate) fn clear_contacts(&mut self)
        ensures
            final(self).id == old(self).id,
            final(self).detection_range == old(self).detection_range,
            final(self).state == old(self).state,
            final(self).spec_last_ops() == old(self).spec_last_ops(),
            final(self).nearby_targets() == Seq::<TargetContact>::empty(),
            final(self).nearby_drones() == Seq::<DroneContact>::empty(),
    {
        clear_target_slots(&mut self.targets);
        clear_drone_slots(&mut self.drones);
    }
}

} // verus!
