//! Plain state of the editor widgets and of the GUI plugins.
use vstd::prelude::*;

verus! {

/// Whether a context menu is open.
#[derive(Clone, Copy)]
pub struct MenuState {
    pub is_open: bool,
}

/// The state with the menu toggled.
pub open spec fn toggled(s: MenuState) -> MenuState {
    MenuState { is_open: !s.is_open }
}

impl MenuState {
    /// The state with the menu toggled.
    pub fn inverse(&self) -> (r: Self)
        ensures
            r == toggled(*self),
    {
        Self { is_open: !self.is_open }
    }

    /// A closed menu.
    pub fn closed() -> (r: Self)
        ensures
            !r.is_open,
    {
        Self { is_open: false }
    }

    /// An open menu.
    pub fn open() -> (r: Self)
        ensures
            r.is_open,
    {
        Self { is_open: true }
    }
}

impl Default for MenuState {
    fn default() -> (r: Self)
        ensures
            !r.is_open,
    {
        Self { is_open: false }
    }
}

/// Toggling a menu twice gives back the state it had.
pub proof fn law_inverse_twice(s: MenuState)
    ensures
        toggled(toggled(s)) == s,
{
}

/// The edges of a rectangle that get a shadow.
pub struct ShadowEdge {
    pub left: bool,
    pub right: bool,
    pub top: bool,
    pub bottom: bool,
}

impl ShadowEdge {
    /// How far shadow layer `layer` (counted from zero) reaches beyond the
    /// left, right, top and bottom edges, in steps: one step more than the
    /// layer on the edges that get a shadow, none on the others.
    pub fn offsets(&self, layer: usize) -> (r: (usize, usize, usize, usize))
        requires
            layer < usize::MAX,
        ensures
            r.0 == if self.left { layer + 1 } else { 0 },
            r.1 == if self.right { layer + 1 } else { 0 },
            r.2 == if self.top { layer + 1 } else { 0 },
            r.3 == if self.bottom { layer + 1 } else { 0 },
    {
        let reach = layer + 1;
        (
            if self.left { reach } else { 0 },
            if self.right { reach } else { 0 },
            if self.top { reach } else { 0 },
            if self.bottom { reach } else { 0 },
        )
    }
}

/// A tab in the editor toolbar.
pub struct TabWidget<'a> {
    pub title: &'a str,
}

impl<'a> TabWidget<'a> {
    /// A tab with the given title.
    pub fn new(title: &'a str) -> (r: Self)
        ensures
            r.title == title,
    {
        Self { title }
    }
}

/// The themes the demo controls offer.
#[derive(Debug, PartialEq, Eq, Clone, Copy)]
pub enum ThemeType {
    Light,
    Dark,
    Custom,
}

/// Provides an aftraction used to determine where the egui ui must be rendered.
#[derive(Clone)]
pub enum EguiSceneSelector {
    Main,
    SubScene(String),
}

} // verus!
