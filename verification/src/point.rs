//! Points.

use vstd::prelude::*;
use crate::binary64::Real;

verus! {

/// A colour on the scale from 0 to 65535.
#[derive(Debug, Clone, Copy, PartialEq, Eq, Structural)]
pub struct Color {
    pub r: u16,
    pub g: u16,
    pub b: u16,
}

/// What a point may carry besides its place and its colour.
#[derive(Debug, Clone, PartialEq, Eq)]
pub struct PointAttributes {
    pub intensity: Option<u16>,
    pub return_number: Option<u8>,
    pub classification: Option<String>,
    pub scanner_channel: Option<u8>,
    /// The bits of a binary32 number.
    pub scan_angle: Option<u32>,
    pub user_data: Option<u8>,
    pub point_source_id: Option<u16>,
    pub gps_time: Option<Real>,
}

/// A point of a cloud.
#[derive(Debug, Clone, PartialEq, Eq)]
pub struct Point {
    pub x: Real,
    pub y: Real,
    pub z: Real,
    pub color: Color,
    pub attributes: PointAttributes,
}

impl PointAttributes {
    /// Attributes of which at most the intensity is known.
    pub open spec fn only_intensity(intensity: Option<u16>) -> PointAttributes {
        PointAttributes {
            intensity,
            return_number: None,
            classification: None,
            scanner_channel: None,
            scan_angle: None,
            user_data: None,
            point_source_id: None,
            gps_time: None,
        }
    }

    /// Makes attributes of which at most the intensity is known.
    pub fn with_intensity(intensity: Option<u16>) -> (res: PointAttributes)
        ensures
            res == PointAttributes::only_intensity(intensity),
    {
        PointAttributes {
            intensity,
            return_number: None,
            classification: None,
            scanner_channel: None,
            scan_angle: None,
            user_data: None,
            point_source_id: None,
            gps_time: None,
        }
    }
}

} // verus!
