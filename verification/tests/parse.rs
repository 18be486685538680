use craftle_solver::json::{after_prefix, lookup, starts_with, Json};
use craftle_solver::model::{fmt, name_of, Material, Recipe};
use craftle_solver::parse::{
    filter_recipe, parse_ingredient, parse_line, parse_recipe, parse_tag, ParseError,
};

use Material::{Air, Planks, Stick, Stone};

fn text(value: &str) -> Json {
    Json::Text(value.to_string())
}

fn object(entries: Vec<(&str, Json)>) -> Json {
    Json::Object(entries.into_iter().map(|(k, v)| (k.to_string(), v)).collect())
}

fn item(name: &str) -> Json {
    object(vec![("item", text(name))])
}

fn tag(name: &str) -> Json {
    object(vec![("tag", text(name))])
}

fn tag_document(values: Vec<Json>) -> Json {
    object(vec![("values", Json::Array(values))])
}

fn tags() -> Vec<(String, Json)> {
    vec![
        ("planks".to_string(), tag_document(vec![text("minecraft:oak_planks"), text("minecraft:birch_planks")])),
        (
            "building".to_string(),
            tag_document(vec![text("minecraft:stone"), text("#minecraft:planks"), text("minecraft:stick")]),
        ),
        ("loop".to_string(), tag_document(vec![text("#minecraft:loop")])),
        ("numbers".to_string(), tag_document(vec![text("minecraft:stone"), Json::Number])),
        ("bare".to_string(), object(vec![("replace", Json::Bool(false))])),
    ]
}

fn shaped(pattern: Vec<&str>, key: Vec<(&str, Json)>) -> Json {
    object(vec![
        ("type", text("minecraft:crafting_shaped")),
        ("key", object(key)),
        ("pattern", Json::Array(pattern.into_iter().map(text).collect())),
        ("result", object(vec![("count", Json::Number), ("id", text("minecraft:ladder"))])),
    ])
}

fn grid_of(recipe: &Recipe) -> &Vec<Vec<Vec<Material>>> {
    match recipe {
        Recipe::Shaped(grid) => grid,
        Recipe::Shapeless(_) => panic!("expected a shaped recipe"),
    }
}

#[test]
fn only_crafting_recipes_are_relevant() {
    assert!(filter_recipe(&object(vec![("type", text("minecraft:crafting_shaped"))])));
    assert!(filter_recipe(&object(vec![("type", text("minecraft:crafting_shapeless"))])));
    assert!(!filter_recipe(&object(vec![("type", text("minecraft:smelting"))])));
    assert!(!filter_recipe(&object(vec![("type", Json::Number)])));
    assert!(!filter_recipe(&object(vec![("kind", text("minecraft:crafting_shaped"))])));
    assert!(!filter_recipe(&Json::Null));
}

#[test]
fn shaped_recipe_is_read_line_by_line() {
    let json = shaped(vec!["S S", "SSS"], vec![("S", item("minecraft:stick"))]);
    let (id, recipe) = parse_recipe(&json, &tags()).unwrap();
    assert_eq!(id, "minecraft:ladder");
    assert_eq!(
        grid_of(&recipe),
        &vec![
            vec![vec![Stick], vec![Air], vec![Stick]],
            vec![vec![Stick], vec![Stick], vec![Stick]],
        ]
    );
}

#[test]
fn shapeless_recipe_lists_its_ingredients() {
    let json = object(vec![
        ("type", text("minecraft:crafting_shapeless")),
        ("ingredients", Json::Array(vec![item("minecraft:stone"), tag("minecraft:planks")])),
        ("result", object(vec![("id", text("minecraft:thing"))])),
    ]);
    let (id, recipe) = parse_recipe(&json, &tags()).unwrap();
    assert_eq!(id, "minecraft:thing");
    match recipe {
        Recipe::Shapeless(groups) => assert_eq!(groups, vec![vec![Stone], vec![Planks]]),
        Recipe::Shaped(_) => panic!("expected a shapeless recipe"),
    }
}

#[test]
fn tag_is_expanded_through_the_tags_it_refers_to() {
    assert_eq!(parse_tag("minecraft:building", &tags(), 5), Ok(vec![Stone, Planks, Stick]));
    assert_eq!(parse_tag("minecraft:planks", &tags(), 0), Ok(vec![Planks]));
}

#[test]
fn tag_errors() {
    assert_eq!(parse_tag("planks", &tags(), 5), Err(ParseError::TagName));
    assert_eq!(parse_tag("minecraft:logs", &tags(), 5), Err(ParseError::UnknownTag));
    assert_eq!(parse_tag("minecraft:bare", &tags(), 5), Err(ParseError::TagValues));
    assert_eq!(parse_tag("minecraft:numbers", &tags(), 5), Err(ParseError::TagValueNotText));
    assert_eq!(parse_tag("minecraft:building", &tags(), 0), Err(ParseError::TagDepth));
    assert_eq!(parse_tag("minecraft:loop", &tags(), 5), Err(ParseError::TagDepth));
}

#[test]
fn a_tag_that_refers_to_itself_is_no_recipe() {
    let json = shaped(vec!["X"], vec![("X", tag("minecraft:loop"))]);
    assert_eq!(parse_recipe(&json, &tags()).unwrap_err(), ParseError::TagDepth);
}

#[test]
fn ingredient_forms() {
    let none = Vec::new();
    assert_eq!(parse_ingredient(&item("minecraft:stick"), &none, 0), Ok(vec![Stick]));
    assert_eq!(parse_ingredient(&item("minecraft:birch_planks"), &none, 0), Ok(vec![]));
    assert_eq!(
        parse_ingredient(&Json::Array(vec![item("minecraft:stick"), item("minecraft:stone")]), &none, 0),
        Ok(vec![Stick, Stone])
    );
    assert_eq!(parse_ingredient(&Json::Array(vec![]), &none, 0), Ok(vec![]));
    assert_eq!(parse_ingredient(&tag("minecraft:planks"), &tags(), 1), Ok(vec![Planks]));
}

#[test]
fn ingredient_errors() {
    let none = Vec::new();
    assert_eq!(parse_ingredient(&object(vec![]), &none, 0), Err(ParseError::IngredientLength));
    assert_eq!(
        parse_ingredient(&object(vec![("item", text("a")), ("tag", text("b"))]), &none, 0),
        Err(ParseError::IngredientLength)
    );
    assert_eq!(parse_ingredient(&object(vec![("item", Json::Number)]), &none, 0), Err(ParseError::IngredientEntry));
    assert_eq!(parse_ingredient(&object(vec![("block", text("a"))]), &none, 0), Err(ParseError::IngredientKind));
    assert_eq!(parse_ingredient(&text("minecraft:stick"), &none, 0), Err(ParseError::IngredientShape));
    assert_eq!(
        parse_ingredient(&Json::Array(vec![item("minecraft:stick"), Json::Null]), &none, 0),
        Err(ParseError::IngredientShape)
    );
}

#[test]
fn line_errors() {
    let key = vec![("S", vec![Stick])];
    assert_eq!(parse_line(&text("S S"), &key), Ok(vec![vec![Stick], vec![Air], vec![Stick]]));
    assert_eq!(parse_line(&text(""), &key), Ok(vec![]));
    assert_eq!(parse_line(&text("SX"), &key), Err(ParseError::UnknownSymbol));
    assert_eq!(parse_line(&Json::Number, &key), Err(ParseError::LineNotText));
}

#[test]
fn recipe_errors() {
    let none = Vec::new();
    assert_eq!(parse_recipe(&object(vec![]), &none).unwrap_err(), ParseError::MissingType);
    assert_eq!(
        parse_recipe(&object(vec![("type", text("minecraft:smelting"))]), &none).unwrap_err(),
        ParseError::InvalidCategory
    );
    assert_eq!(
        parse_recipe(&object(vec![("type", text("minecraft:crafting_shaped"))]), &none).unwrap_err(),
        ParseError::MissingKey
    );
    assert_eq!(
        parse_recipe(
            &object(vec![("type", text("minecraft:crafting_shaped")), ("key", object(vec![]))]),
            &none
        )
        .unwrap_err(),
        ParseError::MissingPattern
    );
    assert_eq!(
        parse_recipe(&object(vec![("type", text("minecraft:crafting_shapeless"))]), &none).unwrap_err(),
        ParseError::MissingIngredients
    );
    assert_eq!(
        parse_recipe(
            &object(vec![
                ("type", text("minecraft:crafting_shapeless")),
                ("ingredients", Json::Array(vec![item("minecraft:stone")])),
                ("result", object(vec![("count", Json::Number)])),
            ]),
            &none
        )
        .unwrap_err(),
        ParseError::MissingResult
    );
    // The key is read before the pattern.
    let json = shaped(vec!["?"], vec![("S", Json::Null)]);
    assert_eq!(parse_recipe(&json, &none).unwrap_err(), ParseError::IngredientShape);
}

#[test]
fn document_questions() {
    let entries = vec![("a".to_string(), Json::Null), ("b".to_string(), Json::Bool(true)), ("a".to_string(), Json::Number)];
    assert!(matches!(lookup(&entries, "a"), Some(Json::Null)));
    assert!(matches!(lookup(&entries, "b"), Some(Json::Bool(true))));
    assert!(lookup(&entries, "c").is_none());
    let json = Json::Object(entries);
    assert!(matches!(json.get("b"), Some(Json::Bool(true))));
    assert!(Json::Null.get("b").is_none());
    assert_eq!(text("x").as_str(), Some("x"));
    assert_eq!(Json::Null.as_str(), None);
    assert_eq!(Json::Array(vec![Json::Null]).as_array().map(|a| a.len()), Some(1));
    assert!(text("x").as_array().is_none());
    assert!(starts_with("minecraft:stick", "minecraft:"));
    assert!(!starts_with("mine", "minecraft:"));
    assert!(!starts_with("minecraft_stick", "minecraft:"));
    assert!(starts_with("anything", ""));
    assert_eq!(after_prefix("#minecraft:planks", 1), "minecraft:planks");
    assert_eq!(after_prefix("abc", 3), "");
}

#[test]
fn craft_is_written_as_item_names() {
    let craft = [Planks, Air, Stick, Material::GoldIngot, Air, Air, Material::RedstoneTorch, Air, Stone];
    assert_eq!(fmt(&craft), "Planks Air Stick GoldIngot Air Air RedstoneTorch Air Stone");
    for item in [Air, Planks, Material::IronNugget, Material::String, Material::Leather] {
        assert_eq!(name_of(item), format!("{:?}", item));
    }
}
