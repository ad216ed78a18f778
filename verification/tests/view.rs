use planetgen::view::{tab_layer_visibility, ViewLayer, ViewTabType};

const LAYERS: [ViewLayer; 6] = [
    ViewLayer::Continent,
    ViewLayer::Ocean,
    ViewLayer::Plates,
    ViewLayer::Temperature,
    ViewLayer::Precipitation,
    ViewLayer::VerticalAir,
];

fn shown(tab: ViewTabType, show_vertical_air: bool) -> Vec<ViewLayer> {
    LAYERS
        .iter()
        .copied()
        .filter(|l| tab_layer_visibility(tab, *l, show_vertical_air) == Some(true))
        .collect()
}

#[test]
fn continent_tab_shows_land_and_ocean() {
    assert_eq!(shown(ViewTabType::Continent, true), vec![ViewLayer::Continent, ViewLayer::Ocean]);
    assert_eq!(tab_layer_visibility(ViewTabType::Continent, ViewLayer::Plates, false), Some(false));
}

#[test]
fn single_layer_tabs_show_their_layer_alone() {
    assert_eq!(shown(ViewTabType::Tectonic, false), vec![ViewLayer::Plates]);
    assert_eq!(shown(ViewTabType::Temperature, false), vec![ViewLayer::Temperature]);
    assert_eq!(shown(ViewTabType::Precipitations, true), vec![ViewLayer::Precipitation]);
}

#[test]
fn wind_tab_swaps_land_for_vertical_air_overlay() {
    assert_eq!(
        shown(ViewTabType::Wind, false),
        vec![ViewLayer::Continent, ViewLayer::Ocean, ViewLayer::VerticalAir]
    );
    assert_eq!(shown(ViewTabType::Wind, true), vec![ViewLayer::VerticalAir]);
}

#[test]
fn biome_tab_changes_nothing() {
    for l in LAYERS {
        assert_eq!(tab_layer_visibility(ViewTabType::Biomes, l, false), None);
    }
}
