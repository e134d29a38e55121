//! Selection state the editor's views keep between frames.  Pan, zoom and
//! hover state live with the rendering layer; what is kept here is which
//! asset is selected and what is being edited.

use vstd::prelude::*;

use crate::property::Property;

verus! {

/// Selection state of the atlas view: which atlas, and the selected tile
/// rectangle.
pub struct AtlasView {
    pub atlas: u128,
    pub selection_pos: (u32, u32),
    pub selection_size: (u32, u32),
}

impl AtlasView {
    /// A fresh view of an atlas: one selected tile at the origin.
    pub fn new(atlas: u128) -> (r: AtlasView)
        ensures
            r.atlas == atlas,
            r.selection_pos == (0u32, 0u32),
            r.selection_size == (1u32, 1u32),
    {
        AtlasView { atlas, selection_pos: (0, 0), selection_size: (1, 1) }
    }
}

/// What the map editor is currently doing with the pointer.
pub enum EditingMode {
    /// Nothing picked up yet.
    Idle,
    /// Painting tiles.
    Tile,
    /// Dragging an object, remembering where inside it the drag started.
    Object { uuid: u128, drag_offset: (i32, i32) },
}

/// Selection state of the component editor: which schema, and a field
/// being added, if any.
pub struct ComponentView {
    pub component: u128,
    pub adding: Option<(String, Property)>,
}

impl ComponentView {
    /// A fresh view of a schema, with no field being added.
    pub fn new(component: u128) -> (r: ComponentView)
        ensures
            r.component == component,
            r.adding is None,
    {
        ComponentView { component, adding: None }
    }
}

/// What the "new map" form collects before the map is created.
pub struct NewMap {
    pub name: String,
    pub size: (u16, u16),
    pub atlas: u128,
}

impl core::default::Default for NewMap {
    /// An empty form.
    fn default() -> (r: NewMap)
        ensures
            r.name@ == Seq::<char>::empty(),
            r.size == (0u16, 0u16),
            r.atlas == 0,
    {
        NewMap { name: String::new(), size: (0, 0), atlas: 0 }
    }
}

} // verus!
