//! The content of a vector tile as the routing graph reads it: layers of
//! features, each feature with a geometry and named properties.

use crate::costing::{tag_map, Tags};
use crate::graph::{TileCoordinates, WayId, WayTransition};
use vstd::prelude::*;
use vstd::string::StringExecFns;

verus! {

/// The value of a property. A single-precision number is held in
/// thousandths, cut to an integer: a length in metres as millimetres.
#[derive(Debug)]
pub enum PropertyValue {
    String(String),
    UInt(u64),
    Float(i32),
    Other,
}

/// The geometry of a feature, its vertices in the units of the tile.
#[derive(Debug)]
pub enum FeatureGeometry {
    LineString(Vec<(i32, i32)>),
    MultiLineString(Vec<Vec<(i32, i32)>>),
    Other,
}

/// A feature of a layer. Of two properties with one name the later counts.
#[derive(Debug)]
pub struct TileFeature {
    pub geometry: FeatureGeometry,
    pub properties: Vec<(String, PropertyValue)>,
}

/// A layer of a tile, with `extent` units to the side of the tile.
#[derive(Debug)]
pub struct TileLayer {
    pub name: String,
    pub extent: u32,
    pub features: Vec<TileFeature>,
}

/// Why a tile was refused.
#[derive(Debug)]
pub enum IngestError {
    /// A feature lacks the named property.
    MissingProperty(String),
    /// A property that must be an unsigned integer is something else.
    PropertyNotU64,
    /// A property that must be a single-precision number is something else.
    PropertyNotF32,
}

/// Why a tile was refused, with the name as characters.
pub enum IngestFailure {
    MissingProperty(Seq<char>),
    PropertyNotU64,
    PropertyNotF32,
}

impl View for IngestError {
    type V = IngestFailure;

    open spec fn view(&self) -> IngestFailure {
        match self {
            IngestError::MissingProperty(name) => IngestFailure::MissingProperty(name@),
            IngestError::PropertyNotU64 => IngestFailure::PropertyNotU64,
            IngestError::PropertyNotF32 => IngestFailure::PropertyNotF32,
        }
    }
}

impl IngestError {
    /// The error in words.
    pub fn message(&self) -> (message: String)
        ensures
            message@ == match self@ {
                IngestFailure::MissingProperty(name) => "Intersection missing "@ + name,
                IngestFailure::PropertyNotU64 => "Property not a u64"@,
                IngestFailure::PropertyNotF32 => "Property not a f32"@,
            },
    {
        match self {
            IngestError::MissingProperty(name) => {
                String::from_str("Intersection missing ").concat(name.as_str())
            },
            IngestError::PropertyNotU64 => String::from_str("Property not a u64"),
            IngestError::PropertyNotF32 => String::from_str("Property not a f32"),
        }
    }
}

/// The value of the property `name`: that of the last property with this
/// name.
pub open spec fn property(properties: Seq<(String, PropertyValue)>, name: Seq<char>) -> Option<
    PropertyValue,
>
    decreases properties.len(),
{
    if properties.len() == 0 {
        None
    } else if properties.last().0@ == name {
        Some(properties.last().1)
    } else {
        property(properties.drop_last(), name)
    }
}

/// The unsigned integer that the property `name` holds.
pub open spec fn u64_property(properties: Seq<(String, PropertyValue)>, name: Seq<char>) -> Result<
    u64,
    IngestFailure,
> {
    match property(properties, name) {
        None => Err(IngestFailure::MissingProperty(name)),
        Some(PropertyValue::UInt(value)) => Ok(value),
        Some(_) => Err(IngestFailure::PropertyNotU64),
    }
}

/// The single-precision number that the property `name` holds, in
/// thousandths.
pub open spec fn f32_property(properties: Seq<(String, PropertyValue)>, name: Seq<char>) -> Result<
    i32,
    IngestFailure,
> {
    match property(properties, name) {
        None => Err(IngestFailure::MissingProperty(name)),
        Some(PropertyValue::Float(thousandths)) => Ok(thousandths),
        Some(_) => Err(IngestFailure::PropertyNotF32),
    }
}

/// The property `name` of a feature.
pub fn get_property<'a>(properties: &'a Vec<(String, PropertyValue)>, name: &str) -> (value: Option<
    &'a PropertyValue,
>)
    ensures
        match value {
            Some(found) => property(properties@, name@) == Some(*found),
            None => property(properties@, name@) is None,
        },
{
    let wanted = name.to_owned();
    let mut i: usize = properties.len();
    proof {
        assert(properties@.take(i as int) =~= properties@);
    }
    while i > 0
        invariant
            i <= properties.len(),
            wanted@ == name@,
            property(properties@, name@) == property(properties@.take(i as int), name@),
        decreases i,
    {
        i -= 1;
        proof {
            assert(properties@.take(i + 1).drop_last() =~= properties@.take(i as int));
        }
        if properties[i].0 == wanted {
            return Some(&properties[i].1);
        }
    }
    None
}

/// The unsigned integer that the property `prop_name` holds.
pub fn get_u64_property(properties: &Vec<(String, PropertyValue)>, prop_name: &str) -> (value:
    Result<u64, IngestError>)
    ensures
        match value {
            Ok(found) => u64_property(properties@, prop_name@) == Ok::<u64, IngestFailure>(found),
            Err(error) => u64_property(properties@, prop_name@) == Err::<u64, IngestFailure>(error@),
        },
{
    match get_property(properties, prop_name) {
        None => Err(IngestError::MissingProperty(prop_name.to_owned())),
        Some(PropertyValue::UInt(value)) => Ok(*value),
        Some(_) => Err(IngestError::PropertyNotU64),
    }
}

/// The single-precision number that the property `prop_name` holds, in
/// thousandths.
pub fn get_f32_property(properties: &Vec<(String, PropertyValue)>, prop_name: &str) -> (value:
    Result<i32, IngestError>)
    ensures
        match value {
            Ok(found) => f32_property(properties@, prop_name@) == Ok::<i32, IngestFailure>(found),
            Err(error) => f32_property(properties@, prop_name@) == Err::<i32, IngestFailure>(error@),
        },
{
    match get_property(properties, prop_name) {
        None => Err(IngestError::MissingProperty(prop_name.to_owned())),
        Some(PropertyValue::Float(thousandths)) => Ok(*thousandths),
        Some(_) => Err(IngestError::PropertyNotF32),
    }
}

/// The properties that hold a string, each with its name, in order.
pub open spec fn string_pairs(properties: Seq<(String, PropertyValue)>) -> Seq<(String, String)>
    decreases properties.len(),
{
    if properties.len() == 0 {
        Seq::empty()
    } else {
        match properties.last().1 {
            PropertyValue::String(value) => string_pairs(properties.drop_last()).push(
                (properties.last().0, value),
            ),
            _ => string_pairs(properties.drop_last()),
        }
    }
}

/// The tags of a feature: its properties that hold a string.
pub open spec fn tags_of(properties: Seq<(String, PropertyValue)>) -> Map<Seq<char>, Seq<char>> {
    tag_map(string_pairs(properties))
}

/// The tags of a feature: its properties that hold a string.
pub fn feature_tags(properties: &Vec<(String, PropertyValue)>) -> (tags: Tags)
    ensures
        tags@ == tags_of(properties@),
{
    let mut pairs: Vec<(String, String)> = Vec::new();
    let mut i: usize = 0;
    while i < properties.len()
        invariant
            i <= properties.len(),
            pairs@ == string_pairs(properties@.take(i as int)),
        decreases properties.len() - i,
    {
        proof {
            assert(properties@.take(i + 1).drop_last() =~= properties@.take(i as int));
        }
        match &properties[i].1 {
            PropertyValue::String(value) => {
                pairs.push((properties[i].0.clone(), value.clone()));
            },
            _ => {},
        }
        i += 1;
    }
    proof {
        assert(properties@.take(i as int) =~= properties@);
    }
    Tags::from_hashmap(pairs)
}

/// The vertices of a line as points of the tile.
pub open spec fn line_points(x: u32, y: u32, z: u32, extent: u32, line: Seq<(i32, i32)>) -> Seq<
    TileCoordinates,
> {
    Seq::new(
        line.len(),
        |i: int| TileCoordinates { x, y, z, extent, tile_x: line[i].0, tile_y: line[i].1 },
    )
}

/// The polyline of a way: that of a geometry which is a single line.
pub open spec fn polyline_of(x: u32, y: u32, z: u32, extent: u32, geometry: FeatureGeometry) -> Option<
    Seq<TileCoordinates>,
> {
    match geometry {
        FeatureGeometry::LineString(line) => Some(line_points(x, y, z, extent, line@)),
        FeatureGeometry::MultiLineString(lines) => if lines@.len() == 1 {
            Some(line_points(x, y, z, extent, lines@[0]@))
        } else {
            None
        },
        FeatureGeometry::Other => None,
    }
}

fn points_of(x: u32, y: u32, z: u32, extent: u32, line: &Vec<(i32, i32)>) -> (points: Vec<
    TileCoordinates,
>)
    ensures
        points@ == line_points(x, y, z, extent, line@),
{
    let mut points: Vec<TileCoordinates> = Vec::new();
    let mut i: usize = 0;
    while i < line.len()
        invariant
            i <= line.len(),
            points@.len() == i,
            forall|j: int|
                0 <= j < i ==> points@[j] == line_points(x, y, z, extent, line@)[j],
        decreases line.len() - i,
    {
        points.push(TileCoordinates { x, y, z, extent, tile_x: line[i].0, tile_y: line[i].1 });
        i += 1;
    }
    proof {
        assert(points@ =~= line_points(x, y, z, extent, line@));
    }
    points
}

/// The polyline of a way: that of a geometry which is a single line.
pub fn way_polyline(x: u32, y: u32, z: u32, extent: u32, geometry: &FeatureGeometry) -> (polyline:
    Option<Vec<TileCoordinates>>)
    ensures
        match polyline {
            Some(points) => polyline_of(x, y, z, extent, *geometry) == Some(points@),
            None => polyline_of(x, y, z, extent, *geometry) is None,
        },
{
    match geometry {
        FeatureGeometry::LineString(line) => Some(points_of(x, y, z, extent, line)),
        FeatureGeometry::MultiLineString(lines) => {
            if lines.len() == 1 {
                Some(points_of(x, y, z, extent, &lines[0]))
            } else {
                None
            }
        },
        FeatureGeometry::Other => None,
    }
}

/// A way of the tile: its id, its tags and, where its geometry is a single
/// line, its polyline.
#[derive(Debug)]
pub struct Road {
    pub way_id: WayId,
    pub tags: Tags,
    pub polyline: Option<Vec<TileCoordinates>>,
}

/// A way of the tile, by value.
pub struct RoadView {
    pub way_id: WayId,
    pub tags: Map<Seq<char>, Seq<char>>,
    pub polyline: Option<Seq<TileCoordinates>>,
}

impl View for Road {
    type V = RoadView;

    open spec fn view(&self) -> RoadView {
        RoadView {
            way_id: self.way_id,
            tags: self.tags@,
            polyline: match self.polyline {
                Some(points) => Some(points@),
                None => None,
            },
        }
    }
}

/// The way that a feature of the layer `roads` describes.
pub open spec fn road_of(x: u32, y: u32, z: u32, extent: u32, feature: TileFeature) -> Result<
    RoadView,
    IngestFailure,
> {
    match u64_property(feature.properties@, "way_id"@) {
        Err(failure) => Err(failure),
        Ok(way) => Ok(
            RoadView {
                way_id: WayId(way),
                tags: tags_of(feature.properties@),
                polyline: polyline_of(x, y, z, extent, feature.geometry),
            },
        ),
    }
}

/// The ways that the first `upto` features describe, or why the first of
/// them that describes none does not.
pub open spec fn roads_of(
    x: u32,
    y: u32,
    z: u32,
    extent: u32,
    features: Seq<TileFeature>,
    upto: int,
) -> Result<Seq<RoadView>, IngestFailure>
    decreases upto,
{
    if upto <= 0 {
        Ok(Seq::empty())
    } else {
        match roads_of(x, y, z, extent, features, upto - 1) {
            Err(failure) => Err(failure),
            Ok(roads) => match road_of(x, y, z, extent, features[upto - 1]) {
                Err(failure) => Err(failure),
                Ok(road) => Ok(roads.push(road)),
            },
        }
    }
}

/// The views of the ways, in order.
pub open spec fn road_views(roads: Seq<Road>) -> Seq<RoadView> {
    Seq::new(roads.len(), |i: int| roads[i]@)
}

/// Reads the ways of a tile from the features of its layer `roads`.
pub fn parse_roads(x: u32, y: u32, z: u32, extent: u32, features: &Vec<TileFeature>) -> (roads:
    Result<Vec<Road>, IngestError>)
    ensures
        match roads {
            Ok(found) => roads_of(x, y, z, extent, features@, features@.len() as int) == Ok::<
                Seq<RoadView>,
                IngestFailure,
            >(road_views(found@)),
            Err(error) => roads_of(x, y, z, extent, features@, features@.len() as int) == Err::<
                Seq<RoadView>,
                IngestFailure,
            >(error@),
        },
{
    let mut roads: Vec<Road> = Vec::new();
    let mut i: usize = 0;
    proof {
        assert(road_views(roads@) =~= Seq::empty());
    }
    while i < features.len()
        invariant
            i <= features.len(),
            roads_of(x, y, z, extent, features@, i as int) == Ok::<Seq<RoadView>, IngestFailure>(
                road_views(roads@),
            ),
        decreases features.len() - i,
    {
        let feature = &features[i];
        let way = match get_u64_property(&feature.properties, "way_id") {
            Ok(way) => way,
            Err(error) => {
                proof {
                    lemma_roads_failure_stays(x, y, z, extent, features@, i + 1, features@.len() as int);
                }
                return Err(error);
            },
        };
        let tags = feature_tags(&feature.properties);
        let polyline = way_polyline(x, y, z, extent, &feature.geometry);
        let road = Road { way_id: WayId(way), tags, polyline };
        proof {
            assert(road_views(roads@.push(road)) =~= road_views(roads@).push(road@));
        }
        roads.push(road);
        i += 1;
    }
    Ok(roads)
}

/// A failure among the first features is the failure of the whole list.
proof fn lemma_roads_failure_stays(
    x: u32,
    y: u32,
    z: u32,
    extent: u32,
    features: Seq<TileFeature>,
    upto: int,
    end: int,
)
    requires
        0 <= upto <= end,
        roads_of(x, y, z, extent, features, upto) is Err,
    ensures
        roads_of(x, y, z, extent, features, end) == roads_of(x, y, z, extent, features, upto),
    decreases end - upto,
{
    if upto < end {
        lemma_roads_failure_stays(x, y, z, extent, features, upto, end - 1);
    }
}

/// A transition of the tile with the tags of its intersection.
#[derive(Debug)]
pub struct Crossing {
    pub transition: WayTransition,
    pub tags: Tags,
}

/// A transition of the tile with the tags of its intersection, by value.
pub struct CrossingView {
    pub transition: WayTransition,
    pub tags: Map<Seq<char>, Seq<char>>,
}

impl View for Crossing {
    type V = CrossingView;

    open spec fn view(&self) -> CrossingView {
        CrossingView { transition: self.transition, tags: self.tags@ }
    }
}

/// The transition that a feature of the layer `intersections` describes.
pub open spec fn crossing_of(feature: TileFeature) -> Result<CrossingView, IngestFailure> {
    match u64_property(feature.properties@, "way_id"@) {
        Err(failure) => Err(failure),
        Ok(from_way) => match u64_property(feature.properties@, "transition_to_way"@) {
            Err(failure) => Err(failure),
            Ok(to_way) => match f32_property(feature.properties@, "distance_along_way"@) {
                Err(failure) => Err(failure),
                Ok(from_mm) => match f32_property(
                    feature.properties@,
                    "transition_to_distance_along_way"@,
                ) {
                    Err(failure) => Err(failure),
                    Ok(to_mm) => Ok(
                        CrossingView {
                            transition: WayTransition {
                                from_way_id: WayId(from_way),
                                distance_along_way_mm: from_mm,
                                to_way_id: WayId(to_way),
                                transition_to_distance_along_way_mm: to_mm,
                            },
                            tags: tags_of(feature.properties@),
                        },
                    ),
                },
            },
        },
    }
}

/// The transitions that the first `upto` features describe, or why the
/// first of them that describes none does not.
pub open spec fn crossings_of(features: Seq<TileFeature>, upto: int) -> Result<
    Seq<CrossingView>,
    IngestFailure,
>
    decreases upto,
{
    if upto <= 0 {
        Ok(Seq::empty())
    } else {
        match crossings_of(features, upto - 1) {
            Err(failure) => Err(failure),
            Ok(crossings) => match crossing_of(features[upto - 1]) {
                Err(failure) => Err(failure),
                Ok(crossing) => Ok(crossings.push(crossing)),
            },
        }
    }
}

/// The views of the transitions, in order.
pub open spec fn crossing_views(crossings: Seq<Crossing>) -> Seq<CrossingView> {
    Seq::new(crossings.len(), |i: int| crossings[i]@)
}

/// A failure among the first features is the failure of the whole list.
proof fn lemma_crossings_failure_stays(features: Seq<TileFeature>, upto: int, end: int)
    requires
        0 <= upto <= end,
        crossings_of(features, upto) is Err,
    ensures
        crossings_of(features, end) == crossings_of(features, upto),
    decreases end - upto,
{
    if upto < end {
        lemma_crossings_failure_stays(features, upto, end - 1);
    }
}

/// Reads one transition from a feature of the layer `intersections`.
pub fn parse_crossing(feature: &TileFeature) -> (crossing: Result<Crossing, IngestError>)
    ensures
        match crossing {
            Ok(found) => crossing_of(*feature) == Ok::<CrossingView, IngestFailure>(found@),
            Err(error) => crossing_of(*feature) == Err::<CrossingView, IngestFailure>(error@),
        },
{
    let tags = feature_tags(&feature.properties);
    let from_way = match get_u64_property(&feature.properties, "way_id") {
        Ok(way) => way,
        Err(error) => {
            return Err(error);
        },
    };
    let to_way = match get_u64_property(&feature.properties, "transition_to_way") {
        Ok(way) => way,
        Err(error) => {
            return Err(error);
        },
    };
    let from_mm = match get_f32_property(&feature.properties, "distance_along_way") {
        Ok(mm) => mm,
        Err(error) => {
            return Err(error);
        },
    };
    let to_mm = match get_f32_property(&feature.properties, "transition_to_distance_along_way") {
        Ok(mm) => mm,
        Err(error) => {
            return Err(error);
        },
    };
    Ok(
        Crossing {
            transition: WayTransition {
                from_way_id: WayId(from_way),
                distance_along_way_mm: from_mm,
                to_way_id: WayId(to_way),
                transition_to_distance_along_way_mm: to_mm,
            },
            tags,
        },
    )
}

/// Reads the transitions of a tile from the features of its layer
/// `intersections`.
pub fn parse_crossings(features: &Vec<TileFeature>) -> (crossings: Result<Vec<Crossing>, IngestError>)
    ensures
        match crossings {
            Ok(found) => crossings_of(features@, features@.len() as int) == Ok::<
                Seq<CrossingView>,
                IngestFailure,
            >(crossing_views(found@)),
            Err(error) => crossings_of(features@, features@.len() as int) == Err::<
                Seq<CrossingView>,
                IngestFailure,
            >(error@),
        },
{
    let mut crossings: Vec<Crossing> = Vec::new();
    let mut i: usize = 0;
    proof {
        assert(crossing_views(crossings@) =~= Seq::empty());
    }
    while i < features.len()
        invariant
            i <= features.len(),
            crossings_of(features@, i as int) == Ok::<Seq<CrossingView>, IngestFailure>(
                crossing_views(crossings@),
            ),
        decreases features.len() - i,
    {
        let crossing = match parse_crossing(&features[i]) {
            Ok(crossing) => crossing,
            Err(error) => {
                proof {
                    lemma_crossings_failure_stays(features@, i + 1, features@.len() as int);
                }
                return Err(error);
            },
        };
        proof {
            assert(crossing_views(crossings@.push(crossing)) =~= crossing_views(crossings@).push(
                crossing@,
            ));
        }
        crossings.push(crossing);
        i += 1;
    }
    Ok(crossings)
}

/// The place of the first layer called `name`.
pub open spec fn layer_named(layers: Seq<TileLayer>, name: Seq<char>) -> Option<int> {
    if exists|i: int| 0 <= i < layers.len() && (#[trigger] layers[i]).name@ == name {
        Some(
            choose|i: int|
                0 <= i < layers.len() && (#[trigger] layers[i]).name@ == name && forall|j: int|
                    0 <= j < i ==> (#[trigger] layers[j]).name@ != name,
        )
    } else {
        None
    }
}

/// The place of the first layer called `name`.
pub fn find_layer(layers: &Vec<TileLayer>, name: &str) -> (place: Option<usize>)
    ensures
        match place {
            Some(found) => layer_named(layers@, name@) == Some(found as int) && found < layers@.len(),
            None => layer_named(layers@, name@) is None,
        },
{
    let wanted = name.to_owned();
    let mut i: usize = 0;
    while i < layers.len()
        invariant
            i <= layers.len(),
            wanted@ == name@,
            forall|j: int| 0 <= j < i ==> (#[trigger] layers@[j]).name@ != name@,
        decreases layers.len() - i,
    {
        if layers[i].name == wanted {
            proof {
                let found = choose|k: int|
                    0 <= k < layers@.len() && (#[trigger] layers@[k]).name@ == name@ && forall|j: int|
                        0 <= j < k ==> (#[trigger] layers@[j]).name@ != name@;
                assert(found == i) by {
                    if found < i {
                        assert(layers@[found].name@ != name@);
                    }
                    if i < found {
                        assert(layers@[i as int].name@ != name@);
                    }
                }
            }
            return Some(i);
        }
        i += 1;
    }
    None
}

} // verus!
