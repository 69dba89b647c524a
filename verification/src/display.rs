//! What is known of a display: its name, its scale and its size.

use vstd::prelude::*;
use crate::config::texts;

verus! {

/// One mode that a display can run in.
#[derive(Debug, Clone, Copy, PartialEq, Eq, Structural)]
pub struct DisplayMode {
    pub width: u32,
    pub height: u32,
    /// Whether the display runs in this mode now.
    pub current: bool,
}

/// A display as the compositor describes it.
#[derive(Debug, Clone, PartialEq, Eq)]
pub struct DisplayDescriptor {
    /// The number by which the compositor knows the display.
    pub id: u32,
    /// The name of the display, where the compositor gives one.
    pub name: Option<String>,
    /// Buffer pixels per logical pixel.
    pub scale: i32,
    /// Size in logical pixels, where the compositor reports it.
    pub logical_size: Option<(u32, u32)>,
    /// The modes of the display.
    pub modes: Vec<DisplayMode>,
}

/// A `DisplayDescriptor` with its name as a character sequence.
pub struct DisplayView {
    pub id: u32,
    pub name: Option<Seq<char>>,
    pub scale: i32,
    pub logical_size: Option<(u32, u32)>,
    pub modes: Seq<DisplayMode>,
}

impl View for DisplayDescriptor {
    type V = DisplayView;

    open spec fn view(&self) -> DisplayView {
        DisplayView {
            id: self.id,
            name: match self.name {
                Some(name) => Some(name@),
                None => None,
            },
            scale: self.scale,
            logical_size: self.logical_size,
            modes: self.modes@,
        }
    }
}

/// The size assumed for a display that reports neither a logical size nor a
/// current mode.
pub open spec fn fallback_size() -> (u32, u32) {
    (1920, 1080)
}

/// The first of `modes` that the display runs in now.
pub open spec fn first_current(modes: Seq<DisplayMode>) -> Option<DisplayMode>
    decreases modes.len(),
{
    if modes.len() == 0 {
        None
    } else if modes[0].current {
        Some(modes[0])
    } else {
        first_current(modes.skip(1))
    }
}

/// `first_current` is the mode at the least position that is current, and
/// there is none exactly where no mode is current.
pub proof fn lemma_first_current(modes: Seq<DisplayMode>)
    ensures
        match first_current(modes) {
            Some(mode) => exists|k: int|
                0 <= k < modes.len() && #[trigger] modes[k] == mode && mode.current && forall|
                    j: int,
                | 0 <= j < k ==> !(#[trigger] modes[j]).current,
            None => forall|j: int| 0 <= j < modes.len() ==> !(#[trigger] modes[j]).current,
        },
    decreases modes.len(),
{
    if modes.len() == 0 {
    } else if modes[0].current {
        assert(modes[0] == modes[0]);
    } else {
        let rest = modes.skip(1);
        lemma_first_current(rest);
        match first_current(rest) {
            Some(mode) => {
                let k = choose|k: int|
                    0 <= k < rest.len() && #[trigger] rest[k] == mode && mode.current && forall|
                        j: int,
                    |
                        0 <= j < k ==> !(#[trigger] rest[j]).current;
                assert(modes[k + 1] == mode);
                assert forall|j: int| 0 <= j < k + 1 implies !(#[trigger] modes[j]).current by {
                    if j > 0 {
                        assert(rest[j - 1] == modes[j]);
                    }
                }
            },
            None => {
                assert forall|j: int| 0 <= j < modes.len() implies !(#[trigger] modes[
                    j
                ]).current by {
                    if j > 0 {
                        assert(rest[j - 1] == modes[j]);
                    }
                }
            },
        }
    }
}

impl DisplayView {
    /// The logical size to begin with: the one the compositor reports, else
    /// the size of the current mode, else the fallback.
    pub open spec fn preferred_size(self) -> (u32, u32) {
        match self.logical_size {
            Some(size) => size,
            None => match first_current(self.modes) {
                Some(mode) => (mode.width, mode.height),
                None => fallback_size(),
            },
        }
    }

    /// Whether the list of wanted display names lets this display through:
    /// an empty list lets every display through, any other list only a
    /// display whose name is one of its entries. A display without a name
    /// passes only the empty list.
    pub open spec fn wanted_by(self, outputs: Seq<Seq<char>>) -> bool {
        outputs.len() == 0 || match self.name {
            Some(name) => outputs.contains(name),
            None => false,
        }
    }
}

/// The logical size to begin with for a display.
pub fn preferred_logical_size(info: &DisplayDescriptor) -> (size: (u32, u32))
    ensures
        size == info@.preferred_size(),
{
    if let Some(size) = info.logical_size {
        return size;
    }
    let mut i: usize = 0;
    assert(info.modes@.skip(0) =~= info.modes@);
    while i < info.modes.len()
        invariant
            i <= info.modes.len(),
            info.logical_size is None,
            first_current(info.modes@) == first_current(info.modes@.skip(i as int)),
        decreases info.modes.len() - i,
    {
        let mode = info.modes[i];
        assert(info.modes@.skip(i as int)[0] == mode);
        if mode.current {
            return (mode.width, mode.height);
        }
        assert(info.modes@.skip(i as int).skip(1) =~= info.modes@.skip(i + 1));
        i += 1;
    }
    (1920, 1080)
}

/// Whether the list of wanted display names lets a display of this name
/// through.
pub fn passes_filter(outputs: &Vec<String>, name: &Option<String>) -> (wanted: bool)
    ensures
        wanted == (outputs@.len() == 0 || match name {
            Some(name) => texts(outputs@).contains(name@),
            None => false,
        }),
{
    if outputs.len() == 0 {
        return true;
    }
    let own = match name {
        Some(own) => own,
        None => {
            return false;
        },
    };
    let mut i: usize = 0;
    while i < outputs.len()
        invariant
            i <= outputs.len(),
            *name == Some(*own),
            forall|j: int| 0 <= j < i ==> texts(outputs@)[j] != own@,
        decreases outputs.len() - i,
    {
        if outputs[i] == *own {
            assert(texts(outputs@)[i as int] == own@);
            return true;
        }
        i += 1;
    }
    false
}

} // verus!
