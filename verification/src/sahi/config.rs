//! Parameters and boxes of sliced prediction.

use std::collections::HashSet;

use vstd::prelude::*;

use crate::ieee::{Double, Single};

verus! {

/// How overlapping boxes are brought together.
#[derive(Debug, Clone, Copy, PartialEq, Eq, Structural)]
pub enum PostprocessType {
    /// The weaker of two boxes is dropped.
    Nms,
    /// A box takes in those that overlap it, from the strongest down.
    Greedynmm,
    /// As before, and boxes taken in take in others.
    Nmm,
    /// As the first.
    Lsnms,
}

impl Default for PostprocessType {
    fn default() -> (r: Self)
        ensures
            r == PostprocessType::Greedynmm,
    {
        PostprocessType::Greedynmm
    }
}

/// How the overlap of two boxes is measured.
#[derive(Debug, Clone, Copy, PartialEq, Eq, Structural)]
pub enum MatchMetric {
    /// Against the union.
    Iou,
    /// Against the smaller box.
    Ios,
}

impl Default for MatchMetric {
    fn default() -> (r: Self)
        ensures
            r == MatchMetric::Ios,
    {
        MatchMetric::Ios
    }
}

/// Parameters of sliced prediction.
#[derive(Debug)]
pub struct SahiConfig {
    /// The height of a slice; chosen by the size of the image if there is none.
    pub slice_height: Option<i32>,
    /// The width of a slice; chosen by the size of the image if there is none.
    pub slice_width: Option<i32>,
    /// The part of its height that a slice shares with the next.
    pub overlap_height_ratio: Double,
    /// The part of its width that a slice shares with the next.
    pub overlap_width_ratio: Double,
    /// Whether the slices may be chosen by the size of the image.
    pub auto_slice_resolution: bool,
    /// Whether the whole image is predicted too, if there is more than one slice.
    pub perform_standard_prediction: bool,
    /// How overlapping boxes are brought together.
    pub postprocess_type: PostprocessType,
    /// How the overlap of two boxes is measured.
    pub match_metric: MatchMetric,
    /// The overlap from which boxes are brought together.
    pub match_threshold: Double,
    /// Whether boxes of different classes are brought together.
    pub class_agnostic: bool,
    /// Whether the way of bringing boxes together is kept at low thresholds.
    pub force_postprocess_type: bool,
    /// The number of boxes above which they are brought together in between.
    pub merge_buffer_length: Option<i32>,
    /// The names of classes that are left out.
    pub exclude_class_names: HashSet<String>,
    /// The numbers of classes that are left out.
    pub exclude_class_ids: HashSet<i32>,
    /// The score below which boxes are left out before they are brought together.
    pub min_confidence: Option<Single>,
    /// Whether the number of boxes of each slice is reported.
    pub verbose: bool,
}

/// The bit pattern of 0.2 in double precision.
pub const DEFAULT_OVERLAP_RATIO: u64 = 0x3fc9_9999_9999_999a;

/// The bit pattern of 0.5 in double precision.
pub const DEFAULT_MATCH_THRESHOLD: u64 = 0x3fe0_0000_0000_0000;

/// The bit pattern of the threshold, 0.1, below which boxes are dropped and not merged.
pub const LOW_MODEL_CONFIDENCE: u32 = 0x3dcc_cccd;

impl SahiConfig {
    /// Whether all parameters but the slices have their default values.
    pub open spec fn is_default_but_slices(self) -> bool {
        &&& self.auto_slice_resolution
        &&& self.perform_standard_prediction
        &&& self.postprocess_type == PostprocessType::Greedynmm
        &&& self.match_metric == MatchMetric::Ios
        &&& self.match_threshold.bits == DEFAULT_MATCH_THRESHOLD
        &&& !self.class_agnostic
        &&& !self.force_postprocess_type
        &&& self.merge_buffer_length is None
        &&& self.exclude_class_names@ == Set::<String>::empty()
        &&& self.exclude_class_ids@ == Set::<i32>::empty()
        &&& self.min_confidence is None
        &&& !self.verbose
    }

    /// Whether all parameters have their default values.
    pub open spec fn is_default(self) -> bool {
        &&& self.slice_height is None
        &&& self.slice_width is None
        &&& self.overlap_height_ratio.bits == DEFAULT_OVERLAP_RATIO
        &&& self.overlap_width_ratio.bits == DEFAULT_OVERLAP_RATIO
        &&& self.is_default_but_slices()
    }

    /// The default parameters.
    pub fn defaults() -> (r: SahiConfig)
        ensures
            r.is_default(),
    {
        SahiConfig {
            slice_height: None,
            slice_width: None,
            overlap_height_ratio: Double { bits: DEFAULT_OVERLAP_RATIO },
            overlap_width_ratio: Double { bits: DEFAULT_OVERLAP_RATIO },
            auto_slice_resolution: true,
            perform_standard_prediction: true,
            postprocess_type: PostprocessType::Greedynmm,
            match_metric: MatchMetric::Ios,
            match_threshold: Double { bits: DEFAULT_MATCH_THRESHOLD },
            class_agnostic: false,
            force_postprocess_type: false,
            merge_buffer_length: None,
            exclude_class_names: HashSet::new(),
            exclude_class_ids: HashSet::new(),
            min_confidence: None,
            verbose: false,
        }
    }

    /// The default parameters with the given slices.
    pub fn of(
        slice_height: i32,
        slice_width: i32,
        overlap_height_ratio: Double,
        overlap_width_ratio: Double,
    ) -> (r: SahiConfig)
        ensures
            r.slice_height == Some(slice_height),
            r.slice_width == Some(slice_width),
            r.overlap_height_ratio == overlap_height_ratio,
            r.overlap_width_ratio == overlap_width_ratio,
            r.is_default_but_slices(),
    {
        let mut config = SahiConfig::defaults();
        config.slice_height = Some(slice_height);
        config.slice_width = Some(slice_width);
        config.overlap_height_ratio = overlap_height_ratio;
        config.overlap_width_ratio = overlap_width_ratio;
        config
    }
}

impl Default for SahiConfig {
    fn default() -> (r: Self)
        ensures
            r.is_default(),
    {
        SahiConfig::defaults()
    }
}

/// A mask of single-precision values, row by row.
#[derive(Debug)]
pub struct FloatMask {
    pub width: usize,
    pub height: usize,
    pub data: Vec<Single>,
}

/// What a box carries besides its place.
#[derive(Debug)]
pub enum SahiPayload {
    /// A mask on a slice, and the place of the slice in the image.
    SliceMask {
        data: Vec<Single>,
        width: usize,
        height: usize,
        offset_x: i32,
        offset_y: i32,
        full_width: i32,
        full_height: i32,
    },
    /// A mask on the whole image.
    FullMask(FloatMask),
}

/// A predicted box on the whole image.
#[derive(Debug)]
pub struct SahiBox {
    pub min_x: Single,
    pub min_y: Single,
    pub max_x: Single,
    pub max_y: Single,
    pub score: Single,
    pub category_id: i32,
    pub category_name: String,
    pub payload: Option<SahiPayload>,
}

impl SahiBox {
    /// A box without anything besides.
    pub fn new(
        min_x: Single,
        min_y: Single,
        max_x: Single,
        max_y: Single,
        score: Single,
        category_id: i32,
        category_name: &str,
    ) -> (r: SahiBox)
        ensures
            r.min_x == min_x,
            r.min_y == min_y,
            r.max_x == max_x,
            r.max_y == max_y,
            r.score == score,
            r.category_id == category_id,
            r.category_name@ == category_name@,
            r.payload is None,
    {
        SahiBox {
            min_x,
            min_y,
            max_x,
            max_y,
            score,
            category_id,
            category_name: String::from_str(category_name),
            payload: None,
        }
    }

    /// Whether `merged` is `first` after it has taken in `second`: the union of both, the
    /// greater score, and the class of the one with the greater score, or of the second.
    pub open spec fn is_merged(merged: SahiBox, first: SahiBox, second: SahiBox) -> bool {
        &&& merged.min_x == first.min_x.min(second.min_x)
        &&& merged.min_y == first.min_y.min(second.min_y)
        &&& merged.max_x == first.max_x.max(second.max_x)
        &&& merged.max_y == first.max_y.max(second.max_y)
        &&& merged.score == first.score.max(second.score)
        &&& merged.payload == first.payload
        &&& if first.score.max(second.score).greater(second.score) {
            merged.category_id == first.category_id && merged.category_name@ == first.category_name@
        } else {
            merged.category_id == second.category_id && merged.category_name@ == second.category_name@
        }
    }

    /// Takes in another box.
    pub fn merge_into(&mut self, other: &SahiBox)
        ensures
            SahiBox::is_merged(*final(self), *old(self), *other),
    {
        self.min_x = self.min_x.min(other.min_x);
        self.min_y = self.min_y.min(other.min_y);
        self.max_x = self.max_x.max(other.max_x);
        self.max_y = self.max_y.max(other.max_y);
        self.score = self.score.max(other.score);
        if !self.score.gt(other.score) {
            self.category_id = other.category_id;
            self.category_name = String::from_str(other.category_name.as_str());
        }
    }

    /// Whether all coordinates and the score are numbers.
    pub open spec fn has_numbers(self) -> bool {
        &&& !self.min_x.not_a_number()
        &&& !self.min_y.not_a_number()
        &&& !self.max_x.not_a_number()
        &&& !self.max_y.not_a_number()
        &&& !self.score.not_a_number()
    }

    /// Whether a box lies in another.
    pub open spec fn lies_in(self, other: SahiBox) -> bool {
        &&& !other.min_x.greater(self.min_x)
        &&& !other.min_y.greater(self.min_y)
        &&& !self.max_x.greater(other.max_x)
        &&& !self.max_y.greater(other.max_y)
    }
}

/// A merged box holds both boxes, and no score of theirs is greater than its own.
pub proof fn merged_box_holds_both(merged: SahiBox, first: SahiBox, second: SahiBox)
    requires
        first.has_numbers(),
        second.has_numbers(),
        SahiBox::is_merged(merged, first, second),
    ensures
        first.lies_in(merged),
        second.lies_in(merged),
        !first.score.greater(merged.score),
        !second.score.greater(merged.score),
{
}

/// A merged box has the class of the box with the greater score, and that of the second
/// if neither score is greater.
pub proof fn merged_box_has_class_of_stronger(merged: SahiBox, first: SahiBox, second: SahiBox)
    requires
        first.has_numbers(),
        second.has_numbers(),
        SahiBox::is_merged(merged, first, second),
    ensures
        first.score.greater(second.score) ==> merged.category_id == first.category_id,
        !first.score.greater(second.score) ==> merged.category_id == second.category_id,
{
}

/// A merged box is no larger than it has to be: each of its sides is one of the two boxes, and so
/// is its score.
pub proof fn merged_box_is_no_larger(merged: SahiBox, first: SahiBox, second: SahiBox)
    requires
        SahiBox::is_merged(merged, first, second),
    ensures
        merged.min_x == first.min_x || merged.min_x == second.min_x,
        merged.min_y == first.min_y || merged.min_y == second.min_y,
        merged.max_x == first.max_x || merged.max_x == second.max_x,
        merged.max_y == first.max_y || merged.max_y == second.max_y,
        merged.score == first.score || merged.score == second.score,
        merged.category_id == first.category_id && merged.category_name@ == first.category_name@
            || merged.category_id == second.category_id && merged.category_name@ == second.category_name@,
        merged.payload == first.payload,
{
}

} // verus!
