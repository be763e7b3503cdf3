//! The daemon that shows the battery level, and the marker that holds it back.
use crate::backend;
use crate::backend::FileWrite;
use crate::battery;
use crate::battery::{BatteryThreshold, LedColor};
use vstd::prelude::*;

verus! {

/// How long the daemon waits between two readings of the battery, in seconds.
pub const CHECK_INTERVAL_SECS: u64 = 3;

/// The file that marks that colour changes are blocked, and since when.
pub const BLOCK_FILE: &'static str = "/var/run/led-handheld-block";

/// What the marker says of colour changes.
#[derive(Clone, Copy, Debug, PartialEq, Eq, Structural)]
pub enum Marker {
    /// There is no marker that can be read.
    Missing,
    /// The time in the marker lies less than the block duration back.
    Recent,
    /// The time in the marker lies further back.
    Expired,
}

/// Whether the marker allows colour changes.
pub open spec fn allows(marker: Marker) -> bool {
    !(marker is Recent)
}

/// The write that resets the marker.
pub open spec fn reset() -> backend::Written {
    backend::Written { path: BLOCK_FILE@, text: "0"@ }
}

/// What an optional write does.
pub open spec fn optional_write(w: Option<FileWrite>) -> Option<backend::Written> {
    match w {
        Some(w) => Some(w@),
        None => None,
    }
}

/// Marks that colour changes are blocked from `now` on (a time in seconds, as text), or
/// that they are no longer.
pub fn block_changes(block: bool, now: &str) -> (r: FileWrite)
    ensures
        r@.path == BLOCK_FILE@,
        r@.text == (if block {
            now@
        } else {
            "0"@
        }),
{
    FileWrite {
        path: String::from_str(BLOCK_FILE),
        text: if block {
            String::from_str(now)
        } else {
            String::from_str("0")
        },
    }
}

/// Decides whether the marker allows colour changes. A marker that has expired is reset.
pub fn changes_allowed(marker: Marker) -> (r: (bool, Option<FileWrite>))
    ensures
        r.0 == allows(marker),
        optional_write(r.1) == (if marker is Expired {
            Some(reset())
        } else {
            None
        }),
{
    match marker {
        Marker::Missing => (true, None),
        Marker::Recent => (false, None),
        Marker::Expired => (true, Some(block_changes(false, ""))),
    }
}

/// What the daemon does after one reading of the battery.
pub struct Tick {
    /// The write that resets the marker, where it has expired.
    pub reset: Option<FileWrite>,
    /// What the LEDs are to show, where that may be changed.
    pub color: Option<LedColor>,
}

/// Decides what the daemon does, given a reading of the battery (`None` where it cannot
/// be read) and the marker.
pub fn daemon_tick(
    reading: Option<(u8, bool)>,
    marker: Marker,
    thresholds: &[BatteryThreshold],
) -> (r: Tick)
    requires
        thresholds@.len() > 0,
    ensures
        r.color == (match reading {
            Some((capacity, charging)) => if allows(marker) {
                Some(
                    battery::decisive(
                        battery::effective(capacity, charging),
                        thresholds@,
                    ).color,
                )
            } else {
                None
            },
            None => None,
        }),
        r.color is Some <==> reading is Some && !(marker is Recent),
        r.color is Some && reading->Some_0.1 ==> exists|k: int|
            #[trigger] battery::is_first_reached(100, thresholds@, k) && r.color == Some(
                thresholds@[k].color,
            ),
        r.color is Some && !reading->Some_0.1 && reading->Some_0.0 < 100 ==> exists|k: int|
            #[trigger] battery::is_first_reached(reading->Some_0.0, thresholds@, k) && r.color
                == Some(thresholds@[k].color),
        r.color is Some && !reading->Some_0.1 && reading->Some_0.0 >= 100 ==> exists|k: int|
            #[trigger] battery::is_first_reached(99, thresholds@, k) && r.color == Some(
                thresholds@[k].color,
            ),
        optional_write(r.reset) == (if reading is Some && marker is Expired {
            Some(reset())
        } else {
            None
        }),
{
    match reading {
        Some((capacity, charging)) => {
            let level: u8 = battery::effective_level(capacity, charging);
            let (allowed, reset) = changes_allowed(marker);
            let color = if allowed {
                Some(*battery::color_for_battery(level, thresholds))
            } else {
                None
            };
            Tick { reset, color }
        },
        None => Tick { reset: None, color: None },
    }
}

// ---------------------------------------------------------------------------
// Laws
// ---------------------------------------------------------------------------

/// In a list that descends, a battery that is not charging shows the colour of the highest
/// threshold that is at most its capacity, or at most 99 where the capacity is more; one that
/// is charging shows that of the highest that is at most a hundred. Of several with one level
/// the first counts, and where all are too high, the last one does.
pub proof fn law_tick_shows_the_level(
    capacity: u8,
    charging: bool,
    thresholds: Seq<BatteryThreshold>,
    j: int,
)
    requires
        thresholds.len() > 0,
        battery::descending(thresholds),
        0 <= j < thresholds.len(),
    ensures
        ({
            let level: u8 = if charging {
                100
            } else if capacity < 100 {
                capacity
            } else {
                99
            };
            let t = battery::decisive(battery::effective(capacity, charging), thresholds);
            &&& thresholds[j].percent <= level ==> t.percent <= level && thresholds[j].percent
                <= t.percent
            &&& thresholds[j].percent <= level && (forall|i: int|
                0 <= i < j ==> level < (#[trigger] thresholds[i]).percent) ==> t == thresholds[j]
            &&& thresholds[0].percent > level && thresholds.last().percent > level ==> t
                == thresholds.last()
        }),
{
    let level = battery::effective(capacity, charging);
    battery::law_capacity_counts(capacity);
    battery::law_highest_reached_decides(level, thresholds);
    battery::law_first_reached_decides(level, thresholds);
    let k = battery::reached_from(level, thresholds, 0);
    if k < j {
        assert(thresholds[k].percent >= thresholds[j].percent);
    }
    assert(thresholds[k].percent >= thresholds.last().percent);
}

/// Colours may be changed unless the marker is recent. The marker is reset to zero, and the
/// daemon looks at the battery every three seconds.
pub proof fn law_recent_marker_blocks(marker: Marker)
    ensures
        allows(marker) <==> marker == Marker::Missing || marker == Marker::Expired,
        reset().path == "/var/run/led-handheld-block"@,
        reset().text == "0"@,
        CHECK_INTERVAL_SECS == 3,
{
}

} // verus!
