//! The data the solver works on: items, recipes, crafts and hints.

use vstd::prelude::*;
use vstd::string::StringExecFns;

verus! {

/// An item of the accepted vocabulary. `Air` marks an unfilled slot.
///
/// Items are ordered as they are declared; [`Material::rank`] numbers them
/// in that order.
#[derive(Debug, PartialEq, Eq, Clone, Copy, Hash, PartialOrd, Ord, Structural)]
pub enum Material {
    Air,
    Planks,
    Cobblestone,
    Stone,
    Glass,
    Wool,
    Stick,
    Coal,
    Diamond,
    GoldIngot,
    IronIngot,
    Redstone,
    Quartz,
    Slab,
    Log,
    IronNugget,
    RedstoneTorch,
    String,
    Leather,
}

/// The colour of one slot of a hint.
#[derive(Debug, Clone, Copy, Hash, PartialEq, Eq, Structural)]
pub enum Color {
    Gray,
    Yellow,
    Green,
}

/// The items that are interchangeable at one position of a recipe.
pub type Ingredient = Vec<Material>;

/// A concrete arrangement of items on the grid, row by row.
pub type Craft = [Material; 9];

/// The colours a guess earns against an answer, slot by slot.
pub type Hint = [Color; 9];

/// A recipe: either a pattern of ingredient rows that keeps its shape, or a
/// list of ingredients that may go into any slots.
#[derive(Debug)]
pub enum Recipe {
    Shaped(Vec<Vec<Ingredient>>),
    Shapeless(Vec<Ingredient>),
}

impl DeepView for Material {
    type V = Material;

    open spec fn deep_view(&self) -> Material {
        *self
    }
}

impl Material {
    /// The position of the item in the order of declaration.
    pub open spec fn rank(self) -> nat {
        match self {
            Material::Air => 0,
            Material::Planks => 1,
            Material::Cobblestone => 2,
            Material::Stone => 3,
            Material::Glass => 4,
            Material::Wool => 5,
            Material::Stick => 6,
            Material::Coal => 7,
            Material::Diamond => 8,
            Material::GoldIngot => 9,
            Material::IronIngot => 10,
            Material::Redstone => 11,
            Material::Quartz => 12,
            Material::Slab => 13,
            Material::Log => 14,
            Material::IronNugget => 15,
            Material::RedstoneTorch => 16,
            Material::String => 17,
            Material::Leather => 18,
        }
    }

    /// The position of the item in the order of declaration.
    pub fn index(self) -> (at: u8)
        ensures
            at == self.rank(),
    {
        match self {
            Material::Air => 0,
            Material::Planks => 1,
            Material::Cobblestone => 2,
            Material::Stone => 3,
            Material::Glass => 4,
            Material::Wool => 5,
            Material::Stick => 6,
            Material::Coal => 7,
            Material::Diamond => 8,
            Material::GoldIngot => 9,
            Material::IronIngot => 10,
            Material::Redstone => 11,
            Material::Quartz => 12,
            Material::Slab => 13,
            Material::Log => 14,
            Material::IronNugget => 15,
            Material::RedstoneTorch => 16,
            Material::String => 17,
            Material::Leather => 18,
        }
    }
}

/// What a recipe holds, as sequences.
pub enum RecipeView {
    Shaped(Seq<Seq<Seq<Material>>>),
    Shapeless(Seq<Seq<Material>>),
}

impl DeepView for Recipe {
    type V = RecipeView;

    open spec fn deep_view(&self) -> RecipeView {
        match *self {
            Recipe::Shaped(grid) => RecipeView::Shaped(grid.deep_view()),
            Recipe::Shapeless(ingredients) => RecipeView::Shapeless(ingredients.deep_view()),
        }
    }
}

/// The item of an unfilled slot.
pub open spec fn empty_item() -> Material {
    Material::Air
}

impl Default for Material {
    fn default() -> (m: Material)
        ensures
            m == empty_item(),
    {
        Material::Air
    }
}

/// The canonical top-left corner `(column, row)` of a pattern of the given
/// `(width, height)` when it is placed as an answer.
pub open spec fn shaped_offset(size: (int, int)) -> (int, int) {
    if size == (1int, 1int) {
        (1, 1)
    } else {
        (0, 0)
    }
}

/// Looks up where the game places a pattern of the given `(width, height)`:
/// a single item in the centre slot, every other pattern in the top-left
/// corner, so that a pattern one item wide stands in the leftmost column.
pub fn get_shaped_offset(size: (usize, usize)) -> (offset: (usize, usize))
    requires
        1 <= size.0 <= 3,
        1 <= size.1 <= 3,
    ensures
        (offset.0 as int, offset.1 as int) == shaped_offset((size.0 as int, size.1 as int)),
        offset.0 + size.0 <= 3,
        offset.1 + size.1 <= 3,
{
    if size.0 == 1 && size.1 == 1 {
        (1, 1)
    } else {
        (0, 0)
    }
}

/// The name under which an item is shown.
pub open spec fn material_name(item: Material) -> Seq<char> {
    match item {
        Material::Air => "Air"@,
        Material::Planks => "Planks"@,
        Material::Cobblestone => "Cobblestone"@,
        Material::Stone => "Stone"@,
        Material::Glass => "Glass"@,
        Material::Wool => "Wool"@,
        Material::Stick => "Stick"@,
        Material::Coal => "Coal"@,
        Material::Diamond => "Diamond"@,
        Material::GoldIngot => "GoldIngot"@,
        Material::IronIngot => "IronIngot"@,
        Material::Redstone => "Redstone"@,
        Material::Quartz => "Quartz"@,
        Material::Slab => "Slab"@,
        Material::Log => "Log"@,
        Material::IronNugget => "IronNugget"@,
        Material::RedstoneTorch => "RedstoneTorch"@,
        Material::String => "String"@,
        Material::Leather => "Leather"@,
    }
}

/// The names of the first `n` items, with a space between two names.
pub open spec fn craft_text(craft: Seq<Material>, n: int) -> Seq<char>
    decreases n,
{
    if n <= 0 {
        Seq::empty()
    } else if n == 1 {
        material_name(craft[0])
    } else {
        craft_text(craft, n - 1) + " "@ + material_name(craft[n - 1])
    }
}

/// The name under which an item is shown.
pub fn name_of(item: Material) -> (name: &'static str)
    ensures
        name@ == material_name(item),
{
    match item {
        Material::Air => "Air",
        Material::Planks => "Planks",
        Material::Cobblestone => "Cobblestone",
        Material::Stone => "Stone",
        Material::Glass => "Glass",
        Material::Wool => "Wool",
        Material::Stick => "Stick",
        Material::Coal => "Coal",
        Material::Diamond => "Diamond",
        Material::GoldIngot => "GoldIngot",
        Material::IronIngot => "IronIngot",
        Material::Redstone => "Redstone",
        Material::Quartz => "Quartz",
        Material::Slab => "Slab",
        Material::Log => "Log",
        Material::IronNugget => "IronNugget",
        Material::RedstoneTorch => "RedstoneTorch",
        Material::String => "String",
        Material::Leather => "Leather",
    }
}

/// Writes a craft as the names of its nine items, slot by slot, with a space
/// between two names.
pub fn fmt(guess: &Craft) -> (text: String)
    ensures
        text@ == craft_text(guess@, 9),
{
    let mut text = String::new();
    let mut slot: usize = 0;
    while slot < 9
        invariant
            slot <= 9,
            text@ == craft_text(guess@, slot as int),
        decreases 9 - slot,
    {
        if slot > 0 {
            text.append(" ");
        }
        text.append(name_of(guess[slot]));
        slot += 1;
    }
    text
}

} // verus!
