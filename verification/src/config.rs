//! What to draw and where: the settings that stay fixed while the overlay
//! runs.

use vstd::prelude::*;
use crate::color::Rgba;

verus! {

/// The settings of one run.
#[derive(Debug, Clone, PartialEq, Eq)]
pub struct Config {
    /// Names of the displays to draw on. Empty means every display.
    pub outputs: Vec<String>,
    /// Colour of the crosshair.
    pub color: Rgba,
    /// Width of each arm across its direction, in pixels.
    pub thickness: u32,
    /// Length of each arm, in pixels.
    pub length: u32,
    /// Distance from the centre to where each arm begins, in pixels.
    pub gap: u32,
}

/// A `Config` with its display names as character sequences.
pub struct ConfigView {
    pub outputs: Seq<Seq<char>>,
    pub color: Rgba,
    pub thickness: u32,
    pub length: u32,
    pub gap: u32,
}

/// The texts of a list of strings.
pub open spec fn texts(strings: Seq<String>) -> Seq<Seq<char>> {
    Seq::new(strings.len(), |i: int| strings[i]@)
}

impl View for Config {
    type V = ConfigView;

    open spec fn view(&self) -> ConfigView {
        ConfigView {
            outputs: texts(self.outputs@),
            color: self.color,
            thickness: self.thickness,
            length: self.length,
            gap: self.gap,
        }
    }
}

impl ConfigView {
    /// The settings used where the command line gives none: a red,
    /// slightly translucent crosshair on every display.
    pub open spec fn initial() -> ConfigView {
        ConfigView {
            outputs: Seq::empty(),
            color: Rgba { r: 255, g: 0, b: 0, a: 200 },
            thickness: 2,
            length: 18,
            gap: 6,
        }
    }

    /// Thickness, arm length and gap are all at least one pixel.
    pub open spec fn positive(self) -> bool {
        self.thickness > 0 && self.length > 0 && self.gap > 0
    }
}

impl Config {
    /// The settings used where the command line gives none.
    pub fn initial() -> (config: Config)
        ensures
            config@ == ConfigView::initial(),
    {
        let config = Config {
            outputs: Vec::new(),
            color: Rgba { r: 255, g: 0, b: 0, a: 200 },
            thickness: 2,
            length: 18,
            gap: 6,
        };
        assert(config@.outputs =~= Seq::empty());
        config
    }
}

} // verus!
