//! Which devices are followed, and what is sent of them at each tick.
//!
//! The tracking runtime reports, for every device slot, whether a device is
//! connected, whether its pose is valid, of what class it is, and its pose.
//! The trackers are chosen once; at every tick each of them that can be used
//! gives one message, addressed by its place among the trackers.

use vstd::prelude::*;
use crate::osc::{TrackerMessage, tracker_message, address_of, arguments_of};
use crate::transform::{CoordsSystem, Transform};

verus! {

/// The class of the device in a slot.
#[derive(Clone, Copy, Debug, PartialEq, Eq, Structural)]
pub enum DeviceClass {
    Invalid,
    Hmd,
    Controller,
    GenericTracker,
    TrackingReference,
    DisplayRedirect,
}

/// What the runtime reports of one device slot at one moment.
#[derive(Clone, Copy, Debug)]
pub struct DevicePose {
    pub connected: bool,
    pub pose_valid: bool,
    pub class: DeviceClass,
    pub pose: [[u32; 4]; 3],
}

impl DevicePose {
    /// The device is connected and its pose is valid. Nothing else makes a
    /// pose usable: one at the origin is a pose like any other.
    pub open spec fn is_usable(self) -> bool {
        self.connected && self.pose_valid
    }

    /// Tells whether the pose can be used.
    pub fn usable(&self) -> (r: bool)
        ensures
            r == self.is_usable(),
    {
        self.connected && self.pose_valid
    }
}

/// Slot `i` holds a generic tracker with a usable pose.
pub open spec fn is_tracker_slot(poses: Seq<DevicePose>, i: int) -> bool {
    &&& 0 <= i < poses.len()
    &&& poses[i].is_usable()
    &&& poses[i].class == DeviceClass::GenericTracker
}

/// The tracker slots below `n`, in ascending order.
pub open spec fn tracker_slots(poses: Seq<DevicePose>, n: int) -> Seq<u32>
    decreases n,
{
    if n <= 0 {
        Seq::empty()
    } else if is_tracker_slot(poses, n - 1) {
        tracker_slots(poses, n - 1).push((n - 1) as u32)
    } else {
        tracker_slots(poses, n - 1)
    }
}

/// What is sent of the tracker in place `place` at one tick: nothing where
/// its pose cannot be used, else the address of the place and the arguments
/// of its transform in the target convention.
pub open spec fn is_frame_of(
    frame: Option<TrackerMessage>,
    trackers: Seq<u32>,
    poses: Seq<DevicePose>,
    coords_system: Option<CoordsSystem>,
    place: int,
) -> bool {
    let device = poses[trackers[place] as int];
    match frame {
        Some(message) => {
            &&& device.is_usable()
            &&& message.addr@ == address_of(place as u32)
            &&& message.args@ == arguments_of(Transform::of_pose(device.pose, coords_system))
        },
        None => !device.is_usable(),
    }
}

/// The tracker slots lie below `n`, each is one, and they ascend: the list
/// holds every tracker slot once.
pub proof fn lemma_tracker_slots(poses: Seq<DevicePose>, n: int)
    requires
        n <= poses.len(),
        n <= u32::MAX,
    ensures
        forall|a: int|
            0 <= a < tracker_slots(poses, n).len() ==> {
                &&& (#[trigger] tracker_slots(poses, n)[a]) < n
                &&& is_tracker_slot(poses, tracker_slots(poses, n)[a] as int)
            },
        forall|a: int, b: int|
            0 <= a < b < tracker_slots(poses, n).len() ==> (#[trigger] tracker_slots(poses, n)[a])
                < (#[trigger] tracker_slots(poses, n)[b]),
        forall|i: int|
            0 <= i < n && is_tracker_slot(poses, i) ==> tracker_slots(poses, n).contains(i as u32),
    decreases n,
{
    if n > 0 {
        lemma_tracker_slots(poses, n - 1);
        let before = tracker_slots(poses, n - 1);
        let now = tracker_slots(poses, n);
        if is_tracker_slot(poses, n - 1) {
            assert(now[before.len() as int] == (n - 1) as u32);
            assert forall|i: int| 0 <= i < n && is_tracker_slot(poses, i) implies now.contains(
                i as u32,
            ) by {
                if i < n - 1 {
                    let a = choose|a: int| 0 <= a < before.len() && before[a] == i as u32;
                    assert(now[a] == i as u32);
                }
            }
        }
    }
}

/// Chooses the devices to follow: the slots that hold a generic tracker with
/// a usable pose, in ascending order.
pub fn select_trackers(poses: &Vec<DevicePose>) -> (trackers: Vec<u32>)
    requires
        poses.len() <= u32::MAX,
    ensures
        trackers@ == tracker_slots(poses@, poses.len() as int),
        forall|a: int| 0 <= a < trackers.len() ==> (#[trigger] trackers[a]) < poses.len(),
{
    let mut trackers: Vec<u32> = Vec::new();
    let mut i: usize = 0;
    while i < poses.len()
        invariant
            i <= poses.len(),
            poses.len() <= u32::MAX,
            trackers@ == tracker_slots(poses@, i as int),
        decreases poses.len() - i,
    {
        if poses[i].usable() && poses[i].class == DeviceClass::GenericTracker {
            trackers.push(i as u32);
        }
        i = i + 1;
    }
    proof {
        lemma_tracker_slots(poses@, poses.len() as int);
    }
    trackers
}

/// What is sent at one tick: for each tracker, in the order of the list, its
/// message or nothing.
pub fn frames(
    trackers: &Vec<u32>,
    poses: &Vec<DevicePose>,
    coords_system: &Option<CoordsSystem>,
) -> (out: Vec<Option<TrackerMessage>>)
    requires
        trackers.len() <= u32::MAX,
        forall|a: int| 0 <= a < trackers.len() ==> (#[trigger] trackers[a]) < poses.len(),
    ensures
        out.len() == trackers.len(),
        forall|place: int|
            0 <= place < out.len() ==> is_frame_of(
                #[trigger] out[place],
                trackers@,
                poses@,
                *coords_system,
                place,
            ),
{
    let mut out: Vec<Option<TrackerMessage>> = Vec::new();
    let mut place: usize = 0;
    while place < trackers.len()
        invariant
            place <= trackers.len(),
            trackers.len() <= u32::MAX,
            forall|a: int| 0 <= a < trackers.len() ==> (#[trigger] trackers[a]) < poses.len(),
            out.len() == place,
            forall|done: int|
                0 <= done < place ==> is_frame_of(
                    #[trigger] out[done],
                    trackers@,
                    poses@,
                    *coords_system,
                    done,
                ),
        decreases trackers.len() - place,
    {
        let device: &DevicePose = &poses[trackers[place] as usize];
        if device.usable() {
            let transform = Transform::from_pose_matrix(&device.pose, coords_system);
            out.push(Some(tracker_message(place as u32, &transform)));
        } else {
            out.push(None);
        }
        place = place + 1;
    }
    out
}

} // verus!
