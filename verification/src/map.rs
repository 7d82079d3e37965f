//! Grid locations and the map-level data that live objects carry.

use hexx::HexLayout;
use vstd::prelude::*;
use vstd::std_specs::convert::FromSpecImpl;

verus! {

/// The grid geometry of `hexx`: cell orientation, origin and cell size.  The
/// library carries a layout from a live map into a document and back and
/// never looks inside it.
#[verifier::external_type_specification]
#[verifier::external_body]
pub struct ExHexLayout(hexx::HexLayout);

/// `HexLayout::clone`, which `hexx` derives: the copy has the fields of the
/// layout it was made from.
pub assume_specification[ <hexx::HexLayout as Clone>::clone ](layout: &hexx::HexLayout) -> (copy:
    hexx::HexLayout)
    ensures
        copy == *layout,
;

/// `HexLayout::default`, the layout that `hexx` gives a grid for which none
/// was chosen.  Nothing is claimed of it.
pub assume_specification[ <hexx::HexLayout as core::default::Default>::default ]() -> (layout:
    hexx::HexLayout)
;

/// A cell of the hex grid, in axial coordinates.
#[derive(Clone, Copy, Debug, PartialEq, Eq, Hash, Structural)]
pub struct Location {
    pub x: i32,
    pub y: i32,
}

impl Location {
    /// The cell with the given axial coordinates.
    pub fn new(x: i32, y: i32) -> (l: Location)
        ensures
            l.x == x,
            l.y == y,
    {
        Location { x, y }
    }
}

impl Default for Location {
    /// The cell at the origin.
    fn default() -> (l: Location)
        ensures
            l.x == 0,
            l.y == 0,
    {
        Location { x: 0, y: 0 }
    }
}

impl From<(i32, i32)> for Location {
    fn from(p: (i32, i32)) -> (l: Location) {
        Location { x: p.0, y: p.1 }
    }
}

impl FromSpecImpl<(i32, i32)> for Location {
    open spec fn obeys_from_spec() -> bool {
        true
    }

    open spec fn from_spec(p: (i32, i32)) -> Location {
        Location { x: p.0, y: p.1 }
    }
}

/// The data that marks a live object as the root of a map: the grid layout.
#[derive(Debug)]
pub struct HexMap {
    pub layout: HexLayout,
}

impl HexMap {
    /// A map with the default grid layout.
    pub fn new() -> HexMap {
        HexMap { layout: HexLayout::default() }
    }

    /// A map with the given grid layout.
    pub fn with_layout(layout: HexLayout) -> (m: HexMap)
        ensures
            m.layout == layout,
    {
        HexMap { layout }
    }
}

impl Default for HexMap {
    fn default() -> HexMap {
        HexMap::new()
    }
}

impl Clone for HexMap {
    fn clone(&self) -> (m: HexMap)
        ensures
            m.layout == self.layout,
    {
        HexMap { layout: self.layout.clone() }
    }
}

/// The data that marks a live object as a layer of a map.  The tiles placed
/// on the layer are the layer object's children.
#[derive(Debug, PartialEq, Eq)]
pub struct Layer {
    pub name: String,
}

impl Layer {
    /// A layer called `name`.
    pub fn new(name: String) -> (l: Layer)
        ensures
            l.name == name,
    {
        Layer { name }
    }
}

impl Clone for Layer {
    fn clone(&self) -> (l: Layer)
        ensures
            l.name@ == self.name@,
    {
        Layer { name: self.name.clone() }
    }
}

} // verus!
