//! What a machine remembers between runs.

use crate::engine::state::LayoutDoc;
use std::sync::Arc;
use vstd::prelude::*;

verus! {

/// The largest code of a key.
pub const MAX_KEY: u32 = 0x2ff;

#[derive(Debug)]
pub struct Config {
    pub master_enabled: bool,
    pub clipboard_sync: bool,
    /// The keys that, held together, end everything.
    pub panic_chord: Arc<Vec<u32>>,
    /// The arrangement that was last shared.
    pub layout: Option<Arc<LayoutDoc>>,
    /// How long the pointer stays at an edge until it crosses, in milliseconds.
    pub edge_dwell_ms: u32,
    /// Pixels round a corner at which the pointer does not cross.
    pub corner_dead_zone: u32,
    /// Which implementations capture and inject.
    pub backends: u64,
}

/// Why a configuration is refused.
#[derive(Clone, Copy, Debug, PartialEq, Eq, Structural)]
pub enum ConfigError {
    EmptyChord,
    ChordCode,
    Layout,
}

impl Default for Config {
    fn default() -> (r: Self)
        ensures
            r.master_enabled,
            r.clipboard_sync,
            (*r.panic_chord)@ == seq![42u32, 54, 1],
            r.layout is None,
            r.edge_dwell_ms == 0,
            r.corner_dead_zone == 16,
            r.backends == 0,
            forall|layout_sound: bool| #[trigger] r.error(layout_sound) is None,
    {
        let chord: Vec<u32> = vec![42, 54, 1];
        assert(chord@ =~= seq![42u32, 54, 1]);
        Config {
            master_enabled: true,
            clipboard_sync: true,
            panic_chord: Arc::new(chord),
            layout: None,
            edge_dwell_ms: 0,
            corner_dead_zone: 16,
            backends: 0,
        }
    }
}

/// The keys of a chord exist.
pub open spec fn are_keys(codes: Seq<u32>) -> bool {
    forall|i: int| 0 <= i < codes.len() ==> 0 < #[trigger] codes[i] <= MAX_KEY
}

impl Config {
    /// What is wrong with a configuration, given whether its arrangement is sound.
    pub open spec fn error(self, layout_sound: bool) -> Option<ConfigError> {
        if (*self.panic_chord)@.len() == 0 {
            Some(ConfigError::EmptyChord)
        } else if !are_keys((*self.panic_chord)@) {
            Some(ConfigError::ChordCode)
        } else if self.layout is Some && !layout_sound {
            Some(ConfigError::Layout)
        } else {
            None
        }
    }

    /// Whether a configuration that was read can be used; `layout_sound` says whether its
    /// arrangement, if it has one, is sound.
    pub fn validate(&self, layout_sound: bool) -> (r: Result<(), ConfigError>)
        ensures
            match r {
                Ok(()) => self.error(layout_sound) is None,
                Err(e) => self.error(layout_sound) == Some(e),
            },
    {
        if self.panic_chord.len() == 0 {
            return Err(ConfigError::EmptyChord);
        }
        for i in 0..self.panic_chord.len()
            invariant
                (*self.panic_chord)@.len() > 0,
                forall|k: int| 0 <= k < i ==> 0 < #[trigger] (*self.panic_chord)@[k] <= MAX_KEY,
        {
            let code: u32 = self.panic_chord[i];
            if code == 0 || code > MAX_KEY {
                return Err(ConfigError::ChordCode);
            }
        }
        if self.layout.is_some() && !layout_sound {
            return Err(ConfigError::Layout);
        }
        Ok(())
    }
}

} // verus!
