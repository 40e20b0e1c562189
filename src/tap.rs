use crate::number::writes;
use crate::volume::{holds, int_text, Volume};
use vstd::prelude::*;

verus! {

/// Why the readings could not be had.
#[derive(Clone, Copy, Debug, PartialEq, Eq, Structural)]
pub enum ReadError {
    /// The data file could not be opened or read.
    Io,
    /// The data file is not a readings document, or a field has the wrong
    /// form.
    Parse,
}

impl ReadError {
    /// Every failure to read the readings is a server-side failure.
    pub fn status(&self) -> (r: u16)
        ensures
            r == 500,
    {
        500
    }
}

/// One tap as the data file records it: its name and the volume left.
#[derive(Clone, Debug)]
pub struct HomeBrew {
    pub name: String,
    pub state: Volume,
}

/// The three taps, by position.
#[derive(Clone, Debug)]
pub struct TapReadings {
    pub tap_one: HomeBrew,
    pub tap_two: HomeBrew,
    pub tap_three: HomeBrew,
}

/// One tap as it is displayed: the share of a full keg left, in percent,
/// and the volume left.
#[derive(Debug)]
pub struct Tap {
    pub name: String,
    /// The percentage, in decimal.
    pub state: String,
    pub volume_left: Volume,
}

/// The three taps as displayed.
#[derive(Debug)]
pub struct KegDisplay {
    pub tap_one: Tap,
    pub tap_two: Tap,
    pub tap_three: Tap,
}

/// What a tap's display record holds, given its reading.
pub open spec fn displays_as(h: HomeBrew, t: Tap) -> bool {
    &&& t.name@ == h.name@
    &&& t.state@ == int_text(h.state.percent_spec())
    &&& t.volume_left == h.state
}

impl HomeBrew {
    pub open spec fn wf(self) -> bool {
        self.state.wf()
    }

    /// A reading from a tap's name and the text of its volume, as the data
    /// file holds them: a decimal, or exponent notation.
    pub fn from_raw(name: String, state: &str) -> (r: Result<HomeBrew, ReadError>)
        ensures
            r.is_err() <==> forall|u: int, k: nat, sh: nat| #[trigger]
                writes(state@, u, k, sh) ==> !holds(u, k, sh),
            r matches Ok(h) ==> h.wf() && h.name@ == name@ && writes(
                state@,
                h.state.units as int,
                h.state.scale as nat,
                h.state.shift as nat,
            ),
            r matches Err(e) ==> e == ReadError::Parse,
    {
        match Volume::read(state) {
            Some(v) => Ok(HomeBrew { name, state: v }),
            None => Err(ReadError::Parse),
        }
    }
}

impl TapReadings {
    pub open spec fn wf(self) -> bool {
        self.tap_one.wf() && self.tap_two.wf() && self.tap_three.wf()
    }
}

/// The display record of one tap: the name kept, the volume turned into
/// `round(volume / 19 * 100)` percent, and the volume itself kept.
pub fn format_tap(homebrew: HomeBrew) -> (r: Tap)
    requires
        homebrew.wf(),
    ensures
        displays_as(homebrew, r),
{
    let state = homebrew.state.percent();
    Tap { name: homebrew.name, state, volume_left: homebrew.state }
}

/// The display records of all three taps, each in its own place.
pub fn display_readings(readings: TapReadings) -> (r: KegDisplay)
    requires
        readings.wf(),
    ensures
        displays_as(readings.tap_one, r.tap_one),
        displays_as(readings.tap_two, r.tap_two),
        displays_as(readings.tap_three, r.tap_three),
{
    KegDisplay {
        tap_one: format_tap(readings.tap_one),
        tap_two: format_tap(readings.tap_two),
        tap_three: format_tap(readings.tap_three),
    }
}

} // verus!
