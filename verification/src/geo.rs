//! Points and boxes in longitude and latitude.
use crate::number::{at_most, less, Number};
use vstd::prelude::*;

verus! {

/// A point in degrees.
#[derive(Clone, Copy, Debug)]
pub struct LngLat {
    pub lng: Number,
    pub lat: Number,
}

impl LngLat {
    pub fn new(lng: Number, lat: Number) -> (point: LngLat)
        ensures
            point == (LngLat { lng, lat }),
    {
        LngLat { lng, lat }
    }
}

/// A box between two corners.
#[derive(Clone, Copy, Debug)]
pub struct LngLatBox {
    pub min: LngLat,
    pub max: LngLat,
}

impl LngLatBox {
    /// The lesser corner is nowhere beyond the greater one.
    pub open spec fn well_formed(self) -> bool {
        &&& !less(self.max.lng, self.min.lng)
        &&& !less(self.max.lat, self.min.lat)
    }

    /// The point lies in the box or on its edge.
    pub open spec fn covers(self, lng: Number, lat: Number) -> bool {
        &&& at_most(self.min.lng, lng) && at_most(lng, self.max.lng)
        &&& at_most(self.min.lat, lat) && at_most(lat, self.max.lat)
    }

    /// The box between two opposite corners, whichever of them comes first.
    pub open spec fn spanned(a: LngLat, b: LngLat) -> LngLatBox {
        LngLatBox {
            min: LngLat {
                lng: if less(b.lng, a.lng) {
                    b.lng
                } else {
                    a.lng
                },
                lat: if less(b.lat, a.lat) {
                    b.lat
                } else {
                    a.lat
                },
            },
            max: LngLat {
                lng: if less(b.lng, a.lng) {
                    a.lng
                } else {
                    b.lng
                },
                lat: if less(b.lat, a.lat) {
                    a.lat
                } else {
                    b.lat
                },
            },
        }
    }

    /// The box between two opposite corners, whichever of them comes first.
    pub fn new(min: LngLat, max: LngLat) -> (result: LngLatBox)
        ensures
            result.well_formed(),
            result == LngLatBox::spanned(min, max),
    {
        let (west, east) = if max.lng.less_than(min.lng) {
            (max.lng, min.lng)
        } else {
            (min.lng, max.lng)
        };
        let (south, north) = if max.lat.less_than(min.lat) {
            (max.lat, min.lat)
        } else {
            (min.lat, max.lat)
        };
        LngLatBox {
            min: LngLat { lng: west, lat: south },
            max: LngLat { lng: east, lat: north },
        }
    }

    /// Neither box lies wholly to one side of the other. A box that lacks a side meets none.
    pub open spec fn meets(self, target: LngLatBox) -> bool {
        &&& at_most(self.min.lng, target.max.lng)
        &&& at_most(target.min.lng, self.max.lng)
        &&& at_most(self.min.lat, target.max.lat)
        &&& at_most(target.min.lat, self.max.lat)
    }

    /// Whether two boxes have a point in common, be it on their edges.
    pub fn intersects_box(&self, target: &LngLatBox) -> (answer: bool)
        ensures
            answer == self.meets(*target),
    {
        self.min.lng.no_more_than(target.max.lng) && target.min.lng.no_more_than(self.max.lng)
            && self.min.lat.no_more_than(target.max.lat) && target.min.lat.no_more_than(
            self.max.lat,
        )
    }
}

/// Two boxes meet exactly where some point lies in both.
pub proof fn law_boxes_meet_in_a_point(a: LngLatBox, b: LngLatBox)
    requires
        a.well_formed(),
        b.well_formed(),
    ensures
        a.meets(b) <==> exists|lng: Number, lat: Number|
            #![trigger a.covers(lng, lat)]
            a.covers(lng, lat) && b.covers(lng, lat),
        a.meets(b) == b.meets(a),
{
    if a.meets(b) {
        let lng = if less(a.min.lng, b.min.lng) {
            b.min.lng
        } else {
            a.min.lng
        };
        let lat = if less(a.min.lat, b.min.lat) {
            b.min.lat
        } else {
            a.min.lat
        };
        assert(a.covers(lng, lat) && b.covers(lng, lat));
    }
}

} // verus!
