//! How input is carried to each machine, and what it takes to cross a screen's edge.

use crate::input::InputMode;
use crate::machine::MachineId;
use crate::text::{byte_len, byte_count};
use vstd::prelude::*;

verus! {

/// One point of motion at an edge.
pub const POINT: i64 = 0x1_0000_0000;

/// What a pointer has to do at an edge until it crosses; distances are in units of
/// [`POINT`].
#[derive(Clone, Copy, Debug, PartialEq, Eq, Structural)]
pub enum CrossingPolicy {
    Immediate,
    Dwell { milliseconds: u32 },
    Resistance { points: i64, decay_per_second: i64 },
}

#[derive(Debug)]
pub struct Mode {
    pub machine: MachineId,
    pub mode: InputMode,
}

#[derive(Debug)]
pub struct InputSettings {
    /// Machines whose input mode was chosen, each once.
    pub destinations: Vec<Mode>,
    pub focus_lock: bool,
    pub crossing: CrossingPolicy,
}

/// Why settings are refused.
#[derive(Clone, Copy, Debug, PartialEq, Eq, Structural)]
pub enum SettingsError {
    Destinations,
    Dwell,
    Resistance,
}

/// Destinations that settings may hold.
pub const MAX_DESTINATIONS: usize = 1024;

/// Bytes of a machine's identity.
pub const MAX_ID: usize = 256;

impl CrossingPolicy {
    pub open spec fn error(self) -> Option<SettingsError> {
        match self {
            CrossingPolicy::Immediate => None,
            CrossingPolicy::Dwell { milliseconds } => if 50 <= milliseconds <= 5000 {
                None
            } else {
                Some(SettingsError::Dwell)
            },
            CrossingPolicy::Resistance { points, decay_per_second } => if 5 * POINT <= points
                <= 1000 * POINT && 0 <= decay_per_second <= 1000 * POINT {
                None
            } else {
                Some(SettingsError::Resistance)
            },
        }
    }
}

/// The mode chosen for a machine, the last where it occurs more than once.
pub open spec fn mode_for(destinations: Seq<Mode>, machine: Seq<char>) -> InputMode
    decreases destinations.len(),
{
    if destinations.len() == 0 {
        InputMode::Desktop
    } else if destinations.last().machine@ == machine {
        destinations.last().mode
    } else {
        mode_for(destinations.drop_last(), machine)
    }
}

/// Settings that can be kept.
pub open spec fn settings_error(settings: InputSettings) -> Option<SettingsError> {
    if settings.destinations@.len() > MAX_DESTINATIONS || exists|i: int|
        0 <= i < settings.destinations@.len() && !(0 < byte_count(
            (#[trigger] settings.destinations@[i]).machine@,
        ) <= MAX_ID) {
        Some(SettingsError::Destinations)
    } else {
        settings.crossing.error()
    }
}

impl Default for InputSettings {
    fn default() -> (r: Self)
        ensures
            r.destinations@ == Seq::<Mode>::empty(),
            !r.focus_lock,
            r.crossing == CrossingPolicy::Immediate,
    {
        InputSettings {
            destinations: Vec::new(),
            focus_lock: false,
            crossing: CrossingPolicy::Immediate,
        }
    }
}

impl InputSettings {
    pub fn mode(&self, target: &MachineId) -> (r: InputMode)
        ensures
            r == mode_for(self.destinations@, target@),
    {
        let mut i: usize = self.destinations.len();
        let ghost all = self.destinations@;
        assert(all.take(i as int) =~= all);
        while i > 0
            invariant
                all == self.destinations@,
                i <= all.len(),
                mode_for(all.take(i as int), target@) == mode_for(all, target@),
            decreases i,
        {
            assert(all.take(i as int).drop_last() =~= all.take(i - 1));
            i = i - 1;
            if self.destinations[i].machine.same(target) {
                return self.destinations[i].mode;
            }
        }
        InputMode::Desktop
    }

    /// Chooses a machine's mode.
    pub fn set_mode(&mut self, target: MachineId, mode: InputMode)
        ensures
            final(self).focus_lock == old(self).focus_lock,
            final(self).crossing == old(self).crossing,
            mode_for(final(self).destinations@, target@) == mode,
            forall|other: Seq<char>|
                other != target@ ==> #[trigger] mode_for(final(self).destinations@, other)
                    == mode_for(old(self).destinations@, other),
            final(self).destinations@.len() <= old(self).destinations@.len() + 1,
    {
        let mut i: usize = 0;
        let ghost before = self.destinations@;
        while i < self.destinations.len()
            invariant
                i <= self.destinations@.len() <= before.len(),
                self.focus_lock == old(self).focus_lock,
                self.crossing == old(self).crossing,
                forall|other: Seq<char>|
                    other != target@ ==> #[trigger] mode_for(self.destinations@, other) == mode_for(
                        before,
                        other,
                    ),
            decreases self.destinations@.len() - i,
        {
            if self.destinations[i].machine.same(&target) {
                let ghost earlier = self.destinations@;
                self.destinations.remove(i);
                proof {
                    assert forall|other: Seq<char>| other != target@ implies #[trigger] mode_for(
                        self.destinations@,
                        other,
                    ) == mode_for(earlier, other) by {
                        lemma_mode_without(earlier, i as int, other);
                    }
                }
            } else {
                i = i + 1;
            }
        }
        let ghost kept = self.destinations@;
        let ghost id = target@;
        self.destinations.push(Mode { machine: target, mode });
        proof {
            let after = self.destinations@;
            assert(after.drop_last() =~= kept);
            assert(after.last().machine@ == id);
            assert forall|other: Seq<char>| other != id implies #[trigger] mode_for(after, other)
                == mode_for(before, other) by {
                assert(mode_for(after, other) == mode_for(kept, other));
            }
        }
    }

    pub fn validate(&self) -> (r: Result<(), SettingsError>)
        ensures
            match r {
                Ok(_) => settings_error(*self) is None,
                Err(e) => settings_error(*self) == Some(e),
            },
    {
        if self.destinations.len() > MAX_DESTINATIONS {
            return Err(SettingsError::Destinations);
        }
        for i in 0..self.destinations.len()
            invariant
                forall|k: int|
                    0 <= k < i ==> 0 < byte_count((#[trigger] self.destinations@[k]).machine@)
                        <= MAX_ID,
        {
            let length: usize = byte_len(self.destinations[i].machine.0.as_str());
            if length == 0 || length > MAX_ID {
                assert(!(0 < byte_count(self.destinations@[i as int].machine@) <= MAX_ID));
                return Err(SettingsError::Destinations);
            }
        }
        match self.crossing {
            CrossingPolicy::Immediate => {},
            CrossingPolicy::Dwell { milliseconds } => {
                if milliseconds < 50 || milliseconds > 5000 {
                    return Err(SettingsError::Dwell);
                }
            },
            CrossingPolicy::Resistance { points, decay_per_second } => {
                if points < 5 * POINT || points > 1000 * POINT || decay_per_second < 0
                    || decay_per_second > 1000 * POINT {
                    return Err(SettingsError::Resistance);
                }
            },
        }
        Ok(())
    }

    /// Settings where none were kept yet: an edge dwell that was configured elsewhere is
    /// taken over.
    pub fn first_run(edge_dwell_ms: u32) -> (r: Result<InputSettings, SettingsError>)
        ensures
            match r {
                Ok(settings) => {
                    &&& settings.destinations@ == Seq::<Mode>::empty()
                    &&& !settings.focus_lock
                    &&& edge_dwell_ms == 0 || 50 <= edge_dwell_ms <= 5000
                    &&& settings.crossing == if edge_dwell_ms == 0 {
                        CrossingPolicy::Immediate
                    } else {
                        CrossingPolicy::Dwell { milliseconds: edge_dwell_ms }
                    }
                },
                Err(e) => e == SettingsError::Dwell && edge_dwell_ms != 0 && !(50 <= edge_dwell_ms
                    <= 5000),
            },
    {
        let mut settings = InputSettings::default();
        if edge_dwell_ms != 0 {
            settings.crossing = CrossingPolicy::Dwell { milliseconds: edge_dwell_ms };
        }
        match settings.validate() {
            Ok(_) => Ok(settings),
            Err(e) => Err(e),
        }
    }
}

proof fn lemma_mode_without(all: Seq<Mode>, i: int, other: Seq<char>)
    requires
        0 <= i < all.len(),
        all[i].machine@ != other,
    ensures
        mode_for(all.remove(i), other) == mode_for(all, other),
    decreases all.len(),
{
    if i == all.len() - 1 {
        assert(all.remove(i) =~= all.drop_last());
    } else {
        lemma_mode_without(all.drop_last(), i, other);
        assert(all.remove(i).drop_last() =~= all.drop_last().remove(i));
        assert(all.remove(i).last() == all.last());
    }
}

/// A machine gets the mode that was chosen for it, and where none was, desktop input.
pub proof fn a_chosen_mode_holds(destinations: Seq<Mode>, machine: Seq<char>, i: int)
    ensures
        (forall|k: int|
            0 <= k < destinations.len() ==> (#[trigger] destinations[k]).machine@ != machine)
            ==> mode_for(destinations, machine) == InputMode::Desktop,
        0 <= i < destinations.len() && destinations[i].machine@ == machine && (forall|k: int|
            i < k < destinations.len() ==> (#[trigger] destinations[k]).machine@ != machine)
            ==> mode_for(destinations, machine) == destinations[i].mode,
    decreases destinations.len(),
{
    if destinations.len() > 0 {
        let front = destinations.drop_last();
        a_chosen_mode_holds(front, machine, i);
        assert(forall|k: int| 0 <= k < front.len() ==> #[trigger] front[k] == destinations[k]);
        assert(destinations[destinations.len() - 1] == destinations.last());
    }
}

/// Settings hold where every machine in them has a name that fits, and crossing takes from a
/// twentieth of a second to five seconds, or a push of five to a thousand points; no others.
pub proof fn settings_stay_within_reason(settings: InputSettings)
    ensures
        settings_error(settings) is None ==> {
            &&& settings.destinations@.len() <= 1024
            &&& settings.crossing matches CrossingPolicy::Dwell { milliseconds } ==> 50
                <= milliseconds <= 5000
            &&& settings.crossing matches CrossingPolicy::Resistance { points, decay_per_second }
                ==> 5 * POINT <= points <= 1000 * POINT && 0 <= decay_per_second <= 1000 * POINT
            &&& forall|i: int|
                0 <= i < settings.destinations@.len() ==> 0 < byte_count(
                    (#[trigger] settings.destinations@[i]).machine@,
                ) <= 256
        },
        settings.destinations@.len() == 0 && settings.crossing is Immediate ==> settings_error(
            settings,
        ) is None,
        settings.destinations@.len() == 0 ==> (settings.crossing matches CrossingPolicy::Dwell {
            milliseconds,
        } && 50 <= milliseconds <= 5000 ==> settings_error(settings) is None),
{
}

} // verus!
