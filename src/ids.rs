//! The keywords that open BDF records.
use vstd::prelude::*;

verus! {

pub const COMMENT: &'static str = "COMMENT";

pub const STARTFONT: &'static str = "STARTFONT";

pub const CONTENTVERSION: &'static str = "CONTENTVERSION";

pub const FONT: &'static str = "FONT";

pub const FONTBOUNDINGBOX: &'static str = "FONTBOUNDINGBOX";

pub const METRICSSET: &'static str = "METRICSSET";

pub const SIZE: &'static str = "SIZE";

pub const SWIDTH: &'static str = "SWIDTH";

pub const DWIDTH: &'static str = "DWIDTH";

pub const SWIDTH1: &'static str = "SWIDTH1";

pub const DWIDTH1: &'static str = "DWIDTH1";

pub const VVECTOR: &'static str = "VVECTOR";

pub const CHARS: &'static str = "CHARS";

pub const ENDFONT: &'static str = "ENDFONT";

pub const STARTPROPERTIES: &'static str = "STARTPROPERTIES";

pub const ENDPROPERTIES: &'static str = "ENDPROPERTIES";

pub const STARTCHAR: &'static str = "STARTCHAR";

pub const ENCODING: &'static str = "ENCODING";

pub const BBX: &'static str = "BBX";

pub const BITMAP: &'static str = "BITMAP";

pub const ENDCHAR: &'static str = "ENDCHAR";

// XLFD property names.

pub const FOUNDRY: &'static str = "FOUNDRY";

pub const FAMILY_NAME: &'static str = "FAMILY_NAME";

pub const WEIGHT_NAME: &'static str = "WEIGHT_NAME";

pub const SLANT: &'static str = "SLANT";

pub const SETWIDTH_NAME: &'static str = "SETWIDTH_NAME";

pub const ADD_STYLE_NAME: &'static str = "ADD_STYLE_NAME";

pub const PIXEL_SIZE: &'static str = "PIXEL_SIZE";

pub const POINT_SIZE: &'static str = "POINT_SIZE";

pub const RESOLUTION_X: &'static str = "RESOLUTION_X";

pub const RESOLUTION_Y: &'static str = "RESOLUTION_Y";

pub const SPACING: &'static str = "SPACING";

pub const AVERAGE_WIDTH: &'static str = "AVERAGE_WIDTH";

pub const CHARSET_REGISTRY: &'static str = "CHARSET_REGISTRY";

pub const CHARSET_ENCODING: &'static str = "CHARSET_ENCODING";

} // verus!
