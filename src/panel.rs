//! The panels of the editor's dock layout.
use vstd::prelude::*;

verus! {

/// A panel that the dock layout can hold.
#[derive(Clone, Copy, Debug, PartialEq, Eq, Hash, Structural)]
pub enum Panel {
    LeftPanel,
    RightPanel,
    BottomPanel,
    Viewport,
    Inspector,
    Console,
    Hierarchy,
    Assets,
    CircleSliders,
    QuaternionBall,
    Modes,
    NameTypeEditor,
    AdhesionSettings,
    ParentSettings,
    TimeSlider,
}

/// The title that a panel shows on its tab and in the windows menu.
pub open spec fn title_of(p: Panel) -> &'static str {
    match p {
        Panel::LeftPanel => "Left Panel",
        Panel::RightPanel => "Right Panel",
        Panel::BottomPanel => "Bottom Panel",
        Panel::Viewport => "Viewport",
        Panel::Inspector => "Inspector",
        Panel::Console => "Console",
        Panel::Hierarchy => "Hierarchy",
        Panel::Assets => "Assets",
        Panel::CircleSliders => "Parent Split Angle",
        Panel::QuaternionBall => "Child Settings",
        Panel::Modes => "Modes",
        Panel::NameTypeEditor => "Genome Editor",
        Panel::AdhesionSettings => "Adhesion Settings",
        Panel::ParentSettings => "Parent Settings",
        Panel::TimeSlider => "Time Slider",
    }
}

impl Panel {
    /// The permanent panels that only hold space for other tabs.
    pub fn is_placeholder(&self) -> (r: bool)
        ensures
            r == (*self == Panel::LeftPanel || *self == Panel::RightPanel || *self
                == Panel::BottomPanel),
    {
        match self {
            Panel::LeftPanel | Panel::RightPanel | Panel::BottomPanel => true,
            _ => false,
        }
    }

    /// The panel's title.
    pub fn title(&self) -> (r: &'static str)
        ensures
            r@ == title_of(*self)@,
    {
        match self {
            Panel::LeftPanel => "Left Panel",
            Panel::RightPanel => "Right Panel",
            Panel::BottomPanel => "Bottom Panel",
            Panel::Viewport => "Viewport",
            Panel::Inspector => "Inspector",
            Panel::Console => "Console",
            Panel::Hierarchy => "Hierarchy",
            Panel::Assets => "Assets",
            Panel::CircleSliders => "Parent Split Angle",
            Panel::QuaternionBall => "Child Settings",
            Panel::Modes => "Modes",
            Panel::NameTypeEditor => "Genome Editor",
            Panel::AdhesionSettings => "Adhesion Settings",
            Panel::ParentSettings => "Parent Settings",
            Panel::TimeSlider => "Time Slider",
        }
    }
}

} // verus!
