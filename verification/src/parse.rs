//! Reading recipes from documents: item names, tags that stand for several
//! items, ingredients, pattern lines and whole recipes.

use vstd::prelude::*;
use crate::json::{
    after_prefix, entry_value, has_prefix, items_of, lookup, member, same_text, starts_with, text_of,
    Json,
};
use crate::model::{Ingredient, Material, Recipe, RecipeView};

verus! {

/// The item that a name of the game stands for, if it is in the accepted
/// vocabulary.
pub open spec fn named_material(name: Seq<char>) -> Option<Material> {
    if name == "minecraft:air"@ {
        Some(Material::Air)
    } else if name == "minecraft:oak_planks"@ {
        Some(Material::Planks)
    } else if name == "minecraft:cobblestone"@ {
        Some(Material::Cobblestone)
    } else if name == "minecraft:stone"@ {
        Some(Material::Stone)
    } else if name == "minecraft:glass"@ {
        Some(Material::Glass)
    } else if name == "minecraft:white_wool"@ {
        Some(Material::Wool)
    } else if name == "minecraft:stick"@ {
        Some(Material::Stick)
    } else if name == "minecraft:coal"@ {
        Some(Material::Coal)
    } else if name == "minecraft:diamond"@ {
        Some(Material::Diamond)
    } else if name == "minecraft:gold_ingot"@ {
        Some(Material::GoldIngot)
    } else if name == "minecraft:iron_ingot"@ {
        Some(Material::IronIngot)
    } else if name == "minecraft:redstone"@ {
        Some(Material::Redstone)
    } else if name == "minecraft:quartz"@ {
        Some(Material::Quartz)
    } else if name == "minecraft:oak_slab"@ {
        Some(Material::Slab)
    } else if name == "minecraft:oak_log"@ {
        Some(Material::Log)
    } else if name == "minecraft:iron_nugget"@ {
        Some(Material::IronNugget)
    } else if name == "minecraft:redstone_torch"@ {
        Some(Material::RedstoneTorch)
    } else if name == "minecraft:string"@ {
        Some(Material::String)
    } else if name == "minecraft:leather"@ {
        Some(Material::Leather)
    } else {
        None
    }
}

/// Converts a name of the game to the item it stands for. A name outside the
/// accepted vocabulary gives `None`.
pub fn material_from_str(str: &str) -> (material: Option<Material>)
    ensures
        material == named_material(str@),
{
    if same_text(str, "minecraft:air") {
        Some(Material::Air)
    } else if same_text(str, "minecraft:oak_planks") {
        Some(Material::Planks)
    } else if same_text(str, "minecraft:cobblestone") {
        Some(Material::Cobblestone)
    } else if same_text(str, "minecraft:stone") {
        Some(Material::Stone)
    } else if same_text(str, "minecraft:glass") {
        Some(Material::Glass)
    } else if same_text(str, "minecraft:white_wool") {
        Some(Material::Wool)
    } else if same_text(str, "minecraft:stick") {
        Some(Material::Stick)
    } else if same_text(str, "minecraft:coal") {
        Some(Material::Coal)
    } else if same_text(str, "minecraft:diamond") {
        Some(Material::Diamond)
    } else if same_text(str, "minecraft:gold_ingot") {
        Some(Material::GoldIngot)
    } else if same_text(str, "minecraft:iron_ingot") {
        Some(Material::IronIngot)
    } else if same_text(str, "minecraft:redstone") {
        Some(Material::Redstone)
    } else if same_text(str, "minecraft:quartz") {
        Some(Material::Quartz)
    } else if same_text(str, "minecraft:oak_slab") {
        Some(Material::Slab)
    } else if same_text(str, "minecraft:oak_log") {
        Some(Material::Log)
    } else if same_text(str, "minecraft:iron_nugget") {
        Some(Material::IronNugget)
    } else if same_text(str, "minecraft:redstone_torch") {
        Some(Material::RedstoneTorch)
    } else if same_text(str, "minecraft:string") {
        Some(Material::String)
    } else if same_text(str, "minecraft:leather") {
        Some(Material::Leather)
    } else {
        None
    }
}

/// Why a document is no recipe.
#[derive(Debug, Clone, Copy, PartialEq, Eq, Structural)]
pub enum ParseError {
    /// The recipe has no text under `type`.
    MissingType,
    /// The type is neither a shaped nor a shapeless crafting recipe.
    InvalidCategory,
    /// A shaped recipe has no object under `key`.
    MissingKey,
    /// A shaped recipe has no array under `pattern`.
    MissingPattern,
    /// A shapeless recipe has no array under `ingredients`.
    MissingIngredients,
    /// The recipe has no text under `result`, `id`.
    MissingResult,
    /// A line of a pattern is no text.
    LineNotText,
    /// A line of a pattern holds a symbol that the key does not explain.
    UnknownSymbol,
    /// An ingredient is an object without exactly one entry.
    IngredientLength,
    /// The entry of an ingredient holds no text.
    IngredientEntry,
    /// The entry of an ingredient is neither an `item` nor a `tag`.
    IngredientKind,
    /// An ingredient is neither an object nor an array.
    IngredientShape,
    /// The name of a tag does not begin with `minecraft:`.
    TagName,
    /// There is no document for a tag.
    UnknownTag,
    /// The document of a tag has no array under `values`.
    TagValues,
    /// A value of a tag is no text.
    TagValueNotText,
    /// Tags refer to tags more deeply than there are tags: they refer to
    /// themselves.
    TagDepth,
}

/// Whether every value is a text.
pub open spec fn all_text(values: Seq<Json>) -> bool {
    forall|i: int| 0 <= i < values.len() ==> text_of(#[trigger] values[i]) is Some
}

/// The items that the tag of the given name stands for. The documents of the
/// tags are `tags`, each under the name without `minecraft:`; a tag may refer
/// to other tags, `depth` deep.
pub open spec fn tag_items(name: Seq<char>, tags: Seq<(String, Json)>, depth: nat) -> Result<
    Seq<Material>,
    ParseError,
>
    decreases depth, 1nat, 0nat,
{
    if !has_prefix(name, "minecraft:"@) {
        Err(ParseError::TagName)
    } else {
        match entry_value(tags, name.skip("minecraft:"@.len() as int)) {
            None => Err(ParseError::UnknownTag),
            Some(document) => match member(document, "values"@) {
                Some(Json::Array(values)) => if all_text(values@) {
                    tag_values(values@, values@.len(), tags, depth)
                } else {
                    Err(ParseError::TagValueNotText)
                },
                _ => Err(ParseError::TagValues),
            },
        }
    }
}

/// The items that the first `n` values of a tag stand for: a value that
/// begins with `#` names another tag, any other value names an item, and a
/// name outside the vocabulary stands for nothing.
pub open spec fn tag_values(values: Seq<Json>, n: nat, tags: Seq<(String, Json)>, depth: nat) -> Result<
    Seq<Material>,
    ParseError,
>
    decreases depth, 0nat, n,
{
    if n == 0 {
        Ok(Seq::empty())
    } else {
        match tag_values(values, (n - 1) as nat, tags, depth) {
            Err(error) => Err(error),
            Ok(front) => {
                let text = text_of(values[n - 1]).unwrap();
                if has_prefix(text, "#"@) {
                    if depth == 0 {
                        Err(ParseError::TagDepth)
                    } else {
                        match tag_items(text.skip("#"@.len() as int), tags, (depth - 1) as nat) {
                            Err(error) => Err(error),
                            Ok(more) => Ok(front + more),
                        }
                    }
                } else {
                    match named_material(text) {
                        Some(item) => Ok(front.push(item)),
                        None => Ok(front),
                    }
                }
            },
        }
    }
}

/// The items that an ingredient stands for: an object names one item or one
/// tag, and an array joins the items of its ingredients.
pub open spec fn ingredient_of(value: Json, tags: Seq<(String, Json)>, depth: nat) -> Result<
    Seq<Material>,
    ParseError,
>
    decreases value,
{
    match value {
        Json::Object(entries) => {
            if entries@.len() != 1 {
                Err(ParseError::IngredientLength)
            } else {
                match text_of(entries@[0].1) {
                    None => Err(ParseError::IngredientEntry),
                    Some(text) => {
                        if entries@[0].0@ == "item"@ {
                            match named_material(text) {
                                Some(item) => Ok(seq![item]),
                                None => Ok(Seq::empty()),
                            }
                        } else if entries@[0].0@ == "tag"@ {
                            tag_items(text, tags, depth)
                        } else {
                            Err(ParseError::IngredientKind)
                        }
                    },
                }
            }
        },
        Json::Array(items) => ingredients_joined(items@, items@.len() as int, tags, depth),
        _ => Err(ParseError::IngredientShape),
    }
}

/// The items of the first `n` ingredients, joined.
pub open spec fn ingredients_joined(items: Seq<Json>, n: int, tags: Seq<(String, Json)>, depth: nat) -> Result<
    Seq<Material>,
    ParseError,
>
    decreases items, n,
{
    if n <= 0 || n > items.len() {
        Ok(Seq::empty())
    } else {
        match ingredients_joined(items, n - 1, tags, depth) {
            Err(error) => Err(error),
            Ok(front) => match ingredient_of(items[n - 1], tags, depth) {
                Err(error) => Err(error),
                Ok(more) => Ok(front + more),
            },
        }
    }
}

/// Whether `found` is the outcome `wanted`: the same error, or items with
/// the same view.
pub open spec fn same_outcome(found: Result<Ingredient, ParseError>, wanted: Result<Seq<Material>, ParseError>) -> bool {
    match found {
        Ok(items) => wanted == Ok::<Seq<Material>, ParseError>(items@),
        Err(error) => wanted == Err::<Seq<Material>, ParseError>(error),
    }
}

/// Expands a tag into the items it stands for, following the tags it
/// refers to, `depth` deep.
#[verifier::loop_isolation(false)]
pub fn parse_tag(name: &str, tags: &Vec<(String, Json)>, depth: usize) -> (found: Result<Ingredient, ParseError>)
    ensures
        same_outcome(found, tag_items(name@, tags@, depth as nat)),
    decreases depth,
{
    if !starts_with(name, "minecraft:") {
        return Err(ParseError::TagName);
    }
    let short = after_prefix(name, "minecraft:".unicode_len());
    let document = match lookup(tags, short) {
        Some(document) => document,
        None => {
            return Err(ParseError::UnknownTag);
        },
    };
    let values = match document.get("values") {
        Some(Json::Array(values)) => values,
        _ => {
            return Err(ParseError::TagValues);
        },
    };
    let mut v: usize = 0;
    while v < values.len()
        invariant
            v <= values.len(),
            forall|i: int| 0 <= i < v ==> text_of(#[trigger] values@[i]) is Some,
        decreases values.len() - v,
    {
        if values[v].as_str().is_none() {
            return Err(ParseError::TagValueNotText);
        }
        v += 1;
    }
    let mut result: Vec<Material> = Vec::new();
    let mut n: usize = 0;
    while n < values.len()
        invariant
            n <= values.len(),
            all_text(values@),
            tag_values(values@, n as nat, tags@, depth as nat) == Ok::<Seq<Material>, ParseError>(result@),
        decreases values.len() - n,
    {
        let text = match values[n].as_str() {
            Some(text) => text,
            None => {
                return Err(ParseError::TagValueNotText);
            },
        };
        if starts_with(text, "#") {
            if depth == 0 {
                proof {
                    lemma_tag_values_fail(values@, (n + 1) as nat, values@.len(), tags@, depth as nat);
                }
                return Err(ParseError::TagDepth);
            }
            match parse_tag(after_prefix(text, "#".unicode_len()), tags, depth - 1) {
                Ok(mut more) => {
                    result.append(&mut more);
                },
                Err(error) => {
                    proof {
                        lemma_tag_values_fail(values@, (n + 1) as nat, values@.len(), tags@, depth as nat);
                    }
                    return Err(error);
                },
            }
        } else {
            match material_from_str(text) {
                Some(item) => {
                    result.push(item);
                },
                None => {},
            }
        }
        n += 1;
    }
    Ok(result)
}

/// An error among the values of a tag is the outcome of all the values.
proof fn lemma_tag_values_fail(values: Seq<Json>, at: nat, n: nat, tags: Seq<(String, Json)>, depth: nat)
    requires
        at <= n,
        tag_values(values, at, tags, depth) is Err,
    ensures
        tag_values(values, n, tags, depth) == tag_values(values, at, tags, depth),
    decreases n,
{
    if at < n {
        lemma_tag_values_fail(values, at, (n - 1) as nat, tags, depth);
    }
}

/// An error among the ingredients of an array is the outcome of the array.
proof fn lemma_ingredients_fail(items: Seq<Json>, at: int, n: int, tags: Seq<(String, Json)>, depth: nat)
    requires
        0 <= at <= n <= items.len(),
        ingredients_joined(items, at, tags, depth) is Err,
    ensures
        ingredients_joined(items, n, tags, depth) == ingredients_joined(items, at, tags, depth),
    decreases n,
{
    if at < n {
        lemma_ingredients_fail(items, at, n - 1, tags, depth);
    }
}

/// Reads an ingredient: the items that may stand at one position of a
/// recipe. Tags are expanded, `depth` deep; items outside the vocabulary are
/// left out.
pub fn parse_ingredient(value: &Json, tags: &Vec<(String, Json)>, depth: usize) -> (found: Result<Ingredient, ParseError>)
    ensures
        same_outcome(found, ingredient_of(*value, tags@, depth as nat)),
    decreases value,
{
    match value {
        Json::Object(entries) => {
            if entries.len() != 1 {
                return Err(ParseError::IngredientLength);
            }
            let text = match entries[0].1.as_str() {
                Some(text) => text,
                None => {
                    return Err(ParseError::IngredientEntry);
                },
            };
            if same_text(entries[0].0.as_str(), "item") {
                let mut items: Vec<Material> = Vec::new();
                match material_from_str(text) {
                    Some(item) => {
                        items.push(item);
                        assert(items@ =~= seq![item]);
                    },
                    None => {},
                }
                Ok(items)
            } else if same_text(entries[0].0.as_str(), "tag") {
                parse_tag(text, tags, depth)
            } else {
                Err(ParseError::IngredientKind)
            }
        },
        Json::Array(items) => {
            let mut results: Vec<Material> = Vec::new();
            let mut n: usize = 0;
            while n < items.len()
                invariant
                    n <= items.len(),
                    *value is Array,
                    value->Array_0 == *items,
                    ingredients_joined(items@, n as int, tags@, depth as nat) == Ok::<Seq<Material>, ParseError>(
                        results@,
                    ),
                decreases items.len() - n,
            {
                match parse_ingredient(&items[n], tags, depth) {
                    Ok(mut more) => {
                        results.append(&mut more);
                    },
                    Err(error) => {
                        proof {
                            lemma_ingredients_fail(items@, n + 1, items@.len() as int, tags@, depth as nat);
                        }
                        return Err(error);
                    },
                }
                n += 1;
            }
            Ok(results)
        },
        _ => Err(ParseError::IngredientShape),
    }
}

/// The key of a pattern as read from the first `n` entries: each symbol
/// with the items that may stand for it.
pub open spec fn key_of(entries: Seq<(String, Json)>, n: nat, tags: Seq<(String, Json)>, depth: nat) -> Result<
    Seq<(Seq<char>, Seq<Material>)>,
    ParseError,
>
    decreases n,
{
    if n == 0 {
        Ok(Seq::empty())
    } else {
        match key_of(entries, (n - 1) as nat, tags, depth) {
            Err(error) => Err(error),
            Ok(front) => match ingredient_of(entries[n - 1].1, tags, depth) {
                Err(error) => Err(error),
                Ok(items) => Ok(front.push((entries[n - 1].0@, items))),
            },
        }
    }
}

/// The position of the first of the first `n` entries of a key that
/// explains the symbol, or `n` if none does.
pub open spec fn symbol_at(key: Seq<(Seq<char>, Seq<Material>)>, symbol: char, n: int) -> int
    decreases n,
{
    if n <= 0 {
        0
    } else {
        let before = symbol_at(key, symbol, n - 1);
        if before < n - 1 || key[n - 1].0 == seq![symbol] {
            before
        } else {
            n
        }
    }
}

/// The items that a symbol of a pattern stands for: those of the first
/// entry of the key whose name is the symbol.
pub open spec fn symbol_items(key: Seq<(Seq<char>, Seq<Material>)>, symbol: char) -> Option<Seq<Material>> {
    let at = symbol_at(key, symbol, key.len() as int);
    if at < key.len() {
        Some(key[at].1)
    } else {
        None
    }
}

/// The first `n` positions of a line of a pattern: a space is an unfilled
/// position, and any other symbol stands for what the key says.
pub open spec fn line_cells(text: Seq<char>, n: nat, key: Seq<(Seq<char>, Seq<Material>)>) -> Result<
    Seq<Seq<Material>>,
    ParseError,
>
    decreases n,
{
    if n == 0 {
        Ok(Seq::empty())
    } else {
        match line_cells(text, (n - 1) as nat, key) {
            Err(error) => Err(error),
            Ok(front) => {
                if text[n - 1] == ' ' {
                    Ok(front.push(seq![Material::Air]))
                } else {
                    match symbol_items(key, text[n - 1]) {
                        Some(items) => Ok(front.push(items)),
                        None => Err(ParseError::UnknownSymbol),
                    }
                }
            },
        }
    }
}

/// The positions of a line of a pattern.
pub open spec fn line_of(line: Json, key: Seq<(Seq<char>, Seq<Material>)>) -> Result<Seq<Seq<Material>>, ParseError> {
    match text_of(line) {
        None => Err(ParseError::LineNotText),
        Some(text) => line_cells(text, text.len(), key),
    }
}

/// The first `n` lines of a pattern.
pub open spec fn pattern_of(lines: Seq<Json>, n: nat, key: Seq<(Seq<char>, Seq<Material>)>) -> Result<
    Seq<Seq<Seq<Material>>>,
    ParseError,
>
    decreases n,
{
    if n == 0 {
        Ok(Seq::empty())
    } else {
        match pattern_of(lines, (n - 1) as nat, key) {
            Err(error) => Err(error),
            Ok(front) => match line_of(lines[n - 1], key) {
                Err(error) => Err(error),
                Ok(line) => Ok(front.push(line)),
            },
        }
    }
}

/// The first `n` ingredients of a list.
pub open spec fn ingredient_list(items: Seq<Json>, n: nat, tags: Seq<(String, Json)>, depth: nat) -> Result<
    Seq<Seq<Material>>,
    ParseError,
>
    decreases n,
{
    if n == 0 {
        Ok(Seq::empty())
    } else {
        match ingredient_list(items, (n - 1) as nat, tags, depth) {
            Err(error) => Err(error),
            Ok(front) => match ingredient_of(items[n - 1], tags, depth) {
                Err(error) => Err(error),
                Ok(group) => Ok(front.push(group)),
            },
        }
    }
}

/// The pattern of a shaped recipe: the lines under `pattern`, read with the
/// key under `key`.
pub open spec fn shaped_of(json: Json, tags: Seq<(String, Json)>, depth: nat) -> Result<RecipeView, ParseError> {
    match member(json, "key"@) {
        Some(Json::Object(entries)) => match key_of(entries@, entries@.len(), tags, depth) {
            Err(error) => Err(error),
            Ok(key) => match member(json, "pattern"@) {
                Some(Json::Array(lines)) => match pattern_of(lines@, lines@.len(), key) {
                    Err(error) => Err(error),
                    Ok(grid) => Ok(RecipeView::Shaped(grid)),
                },
                _ => Err(ParseError::MissingPattern),
            },
        },
        _ => Err(ParseError::MissingKey),
    }
}

/// The ingredients of a shapeless recipe: those under `ingredients`.
pub open spec fn shapeless_of(json: Json, tags: Seq<(String, Json)>, depth: nat) -> Result<RecipeView, ParseError> {
    match member(json, "ingredients"@) {
        Some(Json::Array(items)) => match ingredient_list(items@, items@.len(), tags, depth) {
            Err(error) => Err(error),
            Ok(groups) => Ok(RecipeView::Shapeless(groups)),
        },
        _ => Err(ParseError::MissingIngredients),
    }
}

/// The text under `type`, if there is one.
pub open spec fn category_of(json: Json) -> Option<Seq<char>> {
    match member(json, "type"@) {
        Some(category) => text_of(category),
        None => None,
    }
}

/// The text under `result`, `id`, if there is one.
pub open spec fn result_of(json: Json) -> Option<Seq<char>> {
    match member(json, "result"@) {
        Some(result) => match member(result, "id"@) {
            Some(id) => text_of(id),
            None => None,
        },
        None => None,
    }
}

/// Whether a document is a crafting recipe, shaped or shapeless.
pub open spec fn is_crafting(json: Json) -> bool {
    category_of(json) == Some("minecraft:crafting_shaped"@) || category_of(json) == Some(
        "minecraft:crafting_shapeless"@,
    )
}

/// What a document says as a recipe: the name of what it makes, and the
/// recipe. Tags may refer to tags as deeply as there are tags.
pub open spec fn recipe_of(json: Json, tags: Seq<(String, Json)>) -> Result<(Seq<char>, RecipeView), ParseError> {
    match category_of(json) {
        None => Err(ParseError::MissingType),
        Some(category) => {
            let recipe = if category == "minecraft:crafting_shaped"@ {
                shaped_of(json, tags, tags.len())
            } else if category == "minecraft:crafting_shapeless"@ {
                shapeless_of(json, tags, tags.len())
            } else {
                Err(ParseError::InvalidCategory)
            };
            match recipe {
                Err(error) => Err(error),
                Ok(recipe) => match result_of(json) {
                    Some(id) => Ok((id, recipe)),
                    None => Err(ParseError::MissingResult),
                },
            }
        },
    }
}

/// The entries of a key as sequences.
pub open spec fn key_view(key: Seq<(&str, Ingredient)>) -> Seq<(Seq<char>, Seq<Material>)> {
    key.map_values(|entry: (&str, Ingredient)| (entry.0@, entry.1@))
}

/// An error among the entries of a key is the outcome of the key.
proof fn lemma_key_fail(entries: Seq<(String, Json)>, at: nat, n: nat, tags: Seq<(String, Json)>, depth: nat)
    requires
        at <= n,
        key_of(entries, at, tags, depth) is Err,
    ensures
        key_of(entries, n, tags, depth) == key_of(entries, at, tags, depth),
    decreases n,
{
    if at < n {
        lemma_key_fail(entries, at, (n - 1) as nat, tags, depth);
    }
}

/// An error in a line is the outcome of the line.
proof fn lemma_line_fail(text: Seq<char>, at: nat, n: nat, key: Seq<(Seq<char>, Seq<Material>)>)
    requires
        at <= n,
        line_cells(text, at, key) is Err,
    ensures
        line_cells(text, n, key) == line_cells(text, at, key),
    decreases n,
{
    if at < n {
        lemma_line_fail(text, at, (n - 1) as nat, key);
    }
}

/// An error among the lines of a pattern is the outcome of the pattern.
proof fn lemma_pattern_fail(lines: Seq<Json>, at: nat, n: nat, key: Seq<(Seq<char>, Seq<Material>)>)
    requires
        at <= n,
        pattern_of(lines, at, key) is Err,
    ensures
        pattern_of(lines, n, key) == pattern_of(lines, at, key),
    decreases n,
{
    if at < n {
        lemma_pattern_fail(lines, at, (n - 1) as nat, key);
    }
}

/// An error among the ingredients of a list is the outcome of the list.
proof fn lemma_list_fail(items: Seq<Json>, at: nat, n: nat, tags: Seq<(String, Json)>, depth: nat)
    requires
        at <= n,
        ingredient_list(items, at, tags, depth) is Err,
    ensures
        ingredient_list(items, n, tags, depth) == ingredient_list(items, at, tags, depth),
    decreases n,
{
    if at < n {
        lemma_list_fail(items, at, (n - 1) as nat, tags, depth);
    }
}

/// Once an entry of the key explains the symbol, later entries do not
/// matter.
proof fn lemma_symbol_found(key: Seq<(Seq<char>, Seq<Material>)>, symbol: char, at: int, n: int)
    requires
        0 <= at < n,
        symbol_at(key, symbol, at) == at,
        key[at].0 == seq![symbol],
    ensures
        symbol_at(key, symbol, n) == at,
    decreases n,
{
    if n > at + 1 {
        lemma_symbol_found(key, symbol, at, n - 1);
    }
}

/// A copy of the items.
fn copy_items(items: &Vec<Material>) -> (copy: Vec<Material>)
    ensures
        copy@ == items@,
{
    let mut copy: Vec<Material> = Vec::new();
    let mut n: usize = 0;
    while n < items.len()
        invariant
            n <= items.len(),
            copy@ == items@.take(n as int),
        decreases items.len() - n,
    {
        copy.push(items[n]);
        assert(items@.take(n + 1) =~= items@.take(n as int).push(items[n as int]));
        n += 1;
    }
    assert(items@.take(n as int) =~= items@);
    copy
}

/// The items that a symbol stands for, if the key explains it.
#[verifier::loop_isolation(false)]
fn symbol_ingredient(key: &Vec<(&str, Ingredient)>, symbol: char) -> (items: Option<Ingredient>)
    ensures
        match items {
            Some(found) => symbol_items(key_view(key@), symbol) == Some(found@),
            None => symbol_items(key_view(key@), symbol) is None,
        },
{
    let ghost seen = key_view(key@);
    let mut n: usize = 0;
    while n < key.len()
        invariant
            n <= key.len(),
            symbol_at(seen, symbol, n as int) == n,
        decreases key.len() - n,
    {
        let name = key[n].0;
        if name.unicode_len() == 1 && name.get_char(0) == symbol {
            proof {
                assert(seen[n as int].0 =~= seq![symbol]);
                lemma_symbol_found(seen, symbol, n as int, seen.len() as int);
            }
            return Some(copy_items(&key[n].1));
        }
        proof {
            if seen[n as int].0 == seq![symbol] {
                assert(seq![symbol].len() == 1);
                assert(seq![symbol][0] == symbol);
            }
        }
        n += 1;
    }
    None
}

/// Reads a line of a pattern with the given key.
#[verifier::loop_isolation(false)]
pub fn parse_line(line: &Json, key: &Vec<(&str, Ingredient)>) -> (found: Result<Vec<Ingredient>, ParseError>)
    ensures
        match found {
            Ok(cells) => line_of(*line, key_view(key@)) == Ok::<Seq<Seq<Material>>, ParseError>(cells.deep_view()),
            Err(error) => line_of(*line, key_view(key@)) == Err::<Seq<Seq<Material>>, ParseError>(error),
        },
{
    let text = match line.as_str() {
        Some(text) => text,
        None => {
            return Err(ParseError::LineNotText);
        },
    };
    let ghost seen = key_view(key@);
    let length = text.unicode_len();
    let mut cells: Vec<Ingredient> = Vec::new();
    let mut n: usize = 0;
    assert(cells.deep_view() =~= Seq::<Seq<Material>>::empty());
    while n < length
        invariant
            n <= length,
            line_cells(text@, n as nat, seen) == Ok::<Seq<Seq<Material>>, ParseError>(cells.deep_view()),
        decreases length - n,
    {
        let symbol = text.get_char(n);
        let ghost before = cells.deep_view();
        if symbol == ' ' {
            let mut unfilled: Vec<Material> = Vec::new();
            unfilled.push(Material::default());
            cells.push(unfilled);
            proof {
                crate::permutations::lemma_items_deep_view(unfilled);
                assert(unfilled@ =~= seq![Material::Air]);
                assert(cells.deep_view() =~= before.push(unfilled@));
            }
        } else {
            match symbol_ingredient(key, symbol) {
                Some(items) => {
                    cells.push(items);
                    proof {
                        crate::permutations::lemma_items_deep_view(items);
                        assert(cells.deep_view() =~= before.push(items@));
                    }
                },
                None => {
                    proof {
                        lemma_line_fail(text@, (n + 1) as nat, text@.len(), seen);
                    }
                    return Err(ParseError::UnknownSymbol);
                },
            }
        }
        n += 1;
    }
    Ok(cells)
}

/// Reads the pattern of a shaped recipe.
#[verifier::loop_isolation(false)]
fn parse_shaped(json: &Json, tags: &Vec<(String, Json)>) -> (found: Result<Recipe, ParseError>)
    ensures
        match found {
            Ok(recipe) => shaped_of(*json, tags@, tags@.len()) == Ok::<RecipeView, ParseError>(recipe.deep_view()),
            Err(error) => shaped_of(*json, tags@, tags@.len()) == Err::<RecipeView, ParseError>(error),
        },
{
    let entries = match json.get("key") {
        Some(Json::Object(entries)) => entries,
        _ => {
            return Err(ParseError::MissingKey);
        },
    };
    let depth = tags.len();
    let mut key: Vec<(&str, Ingredient)> = Vec::new();
    let mut n: usize = 0;
    assert(key_view(key@) =~= Seq::<(Seq<char>, Seq<Material>)>::empty());
    while n < entries.len()
        invariant
            n <= entries.len(),
            key_of(entries@, n as nat, tags@, depth as nat) == Ok::<Seq<(Seq<char>, Seq<Material>)>, ParseError>(
                key_view(key@),
            ),
        decreases entries.len() - n,
    {
        let ghost before = key_view(key@);
        match parse_ingredient(&entries[n].1, tags, depth) {
            Ok(items) => {
                key.push((entries[n].0.as_str(), items));
                assert(key_view(key@) =~= before.push((entries[n as int].0@, items@)));
            },
            Err(error) => {
                proof {
                    lemma_key_fail(entries@, (n + 1) as nat, entries@.len(), tags@, depth as nat);
                }
                return Err(error);
            },
        }
        n += 1;
    }
    let lines = match json.get("pattern") {
        Some(Json::Array(lines)) => lines,
        _ => {
            return Err(ParseError::MissingPattern);
        },
    };
    let ghost seen = key_view(key@);
    let mut grid: Vec<Vec<Ingredient>> = Vec::new();
    let mut l: usize = 0;
    assert(grid.deep_view() =~= Seq::<Seq<Seq<Material>>>::empty());
    while l < lines.len()
        invariant
            l <= lines.len(),
            pattern_of(lines@, l as nat, seen) == Ok::<Seq<Seq<Seq<Material>>>, ParseError>(grid.deep_view()),
        decreases lines.len() - l,
    {
        let ghost before = grid.deep_view();
        match parse_line(&lines[l], &key) {
            Ok(cells) => {
                grid.push(cells);
                assert(grid.deep_view() =~= before.push(cells.deep_view()));
            },
            Err(error) => {
                proof {
                    lemma_pattern_fail(lines@, (l + 1) as nat, lines@.len(), seen);
                }
                return Err(error);
            },
        }
        l += 1;
    }
    Ok(Recipe::Shaped(grid))
}

/// Reads the ingredients of a shapeless recipe.
#[verifier::loop_isolation(false)]
fn parse_shapeless(json: &Json, tags: &Vec<(String, Json)>) -> (found: Result<Recipe, ParseError>)
    ensures
        match found {
            Ok(recipe) => shapeless_of(*json, tags@, tags@.len()) == Ok::<RecipeView, ParseError>(recipe.deep_view()),
            Err(error) => shapeless_of(*json, tags@, tags@.len()) == Err::<RecipeView, ParseError>(error),
        },
{
    let items = match json.get("ingredients") {
        Some(Json::Array(items)) => items,
        _ => {
            return Err(ParseError::MissingIngredients);
        },
    };
    let depth = tags.len();
    let mut groups: Vec<Ingredient> = Vec::new();
    let mut n: usize = 0;
    assert(groups.deep_view() =~= Seq::<Seq<Material>>::empty());
    while n < items.len()
        invariant
            n <= items.len(),
            ingredient_list(items@, n as nat, tags@, depth as nat) == Ok::<Seq<Seq<Material>>, ParseError>(
                groups.deep_view(),
            ),
        decreases items.len() - n,
    {
        let ghost before = groups.deep_view();
        match parse_ingredient(&items[n], tags, depth) {
            Ok(group) => {
                groups.push(group);
                proof {
                    crate::permutations::lemma_items_deep_view(group);
                    assert(groups.deep_view() =~= before.push(group@));
                }
            },
            Err(error) => {
                proof {
                    lemma_list_fail(items@, (n + 1) as nat, items@.len(), tags@, depth as nat);
                }
                return Err(error);
            },
        }
        n += 1;
    }
    Ok(Recipe::Shapeless(groups))
}

/// The text under `type`, if there is one.
fn category(json: &Json) -> (found: Option<&str>)
    ensures
        match found {
            Some(text) => category_of(*json) == Some(text@),
            None => category_of(*json) is None,
        },
{
    match json.get("type") {
        Some(value) => value.as_str(),
        None => None,
    }
}

/// Whether a document is a crafting recipe, shaped or shapeless, and so
/// worth reading as one.
pub fn filter_recipe(json: &Json) -> (relevant: bool)
    ensures
        relevant == is_crafting(*json),
{
    match category(json) {
        Some(text) => same_text(text, "minecraft:crafting_shaped") || same_text(text, "minecraft:crafting_shapeless"),
        None => false,
    }
}

/// Reads a recipe from a document: the name of what it makes, and the
/// recipe. The documents of the tags are `tags`, each under the name of the
/// tag without `minecraft:`.
pub fn parse_recipe(json: &Json, tags: &Vec<(String, Json)>) -> (found: Result<(String, Recipe), ParseError>)
    ensures
        match found {
            Ok(named) => recipe_of(*json, tags@) == Ok::<(Seq<char>, RecipeView), ParseError>(
                (named.0@, named.1.deep_view()),
            ),
            Err(error) => recipe_of(*json, tags@) == Err::<(Seq<char>, RecipeView), ParseError>(error),
        },
{
    let kind = match category(json) {
        Some(kind) => kind,
        None => {
            return Err(ParseError::MissingType);
        },
    };
    let recipe = if same_text(kind, "minecraft:crafting_shaped") {
        parse_shaped(json, tags)
    } else if same_text(kind, "minecraft:crafting_shapeless") {
        parse_shapeless(json, tags)
    } else {
        Err(ParseError::InvalidCategory)
    };
    let recipe = match recipe {
        Ok(recipe) => recipe,
        Err(error) => {
            return Err(error);
        },
    };
    let id = match json.get("result") {
        Some(result) => match result.get("id") {
            Some(id) => id.as_str(),
            None => None,
        },
        None => None,
    };
    match id {
        Some(id) => Ok((id.to_owned(), recipe)),
        None => Err(ParseError::MissingResult),
    }
}

} // verus!
