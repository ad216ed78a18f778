use vstd::prelude::*;

verus! {

/// The tabs of the planet view.
#[derive(Clone, Copy, Debug, PartialEq, Eq, Structural)]
pub enum ViewTabType {
    Continent,
    Tectonic,
    Wind,
    Temperature,
    Precipitations,
    Biomes,
}

/// The layers of the planet view that a tab shows or hides.
#[derive(Clone, Copy, Debug, PartialEq, Eq, Structural)]
pub enum ViewLayer {
    /// The continent (height-coloured) planet mesh.
    Continent,
    /// The ocean surface.
    Ocean,
    /// The plate-coloured planet mesh.
    Plates,
    /// The temperature-coloured meshes.
    Temperature,
    /// The precipitation-coloured meshes.
    Precipitation,
    /// The vertical-air overlay meshes.
    VerticalAir,
}

/// Whether switching to `tab` shows (`Some(true)`) or hides (`Some(false)`)
/// `layer`, or leaves it as it is (`None`).
///
/// The continent tab shows the continent mesh and the ocean; the tectonic,
/// temperature and precipitation tabs each show their own layer alone; the
/// wind tab shows the vertical-air overlay, and the continent mesh and ocean
/// unless that overlay is switched on (its meshes replace them); the biome
/// tab changes nothing.
pub fn tab_layer_visibility(tab: ViewTabType, layer: ViewLayer, show_vertical_air: bool) -> (v: Option<bool>)
    ensures
        tab == ViewTabType::Biomes <==> v is None,
        tab == ViewTabType::Continent ==> v == Some(layer == ViewLayer::Continent || layer == ViewLayer::Ocean),
        tab == ViewTabType::Tectonic ==> v == Some(layer == ViewLayer::Plates),
        tab == ViewTabType::Temperature ==> v == Some(layer == ViewLayer::Temperature),
        tab == ViewTabType::Precipitations ==> v == Some(layer == ViewLayer::Precipitation),
        tab == ViewTabType::Wind ==> v == Some(
            layer == ViewLayer::VerticalAir || (!show_vertical_air && (layer == ViewLayer::Continent || layer
                == ViewLayer::Ocean)),
        ),
{
    match tab {
        ViewTabType::Continent => Some(match layer {
            ViewLayer::Continent | ViewLayer::Ocean => true,
            _ => false,
        }),
        ViewTabType::Wind => Some(match layer {
            ViewLayer::Continent | ViewLayer::Ocean => !show_vertical_air,
            ViewLayer::VerticalAir => true,
            _ => false,
        }),
        ViewTabType::Tectonic => Some(match layer {
            ViewLayer::Plates => true,
            _ => false,
        }),
        ViewTabType::Temperature => Some(match layer {
            ViewLayer::Temperature => true,
            _ => false,
        }),
        ViewTabType::Precipitations => Some(match layer {
            ViewLayer::Precipitation => true,
            _ => false,
        }),
        ViewTabType::Biomes => None,
    }
}

} // verus!
