//! From an image to the plates in it.

use vstd::prelude::*;

use crate::engines::license_plate::{is_crop_reading, is_good_reply, DetectorCalls, LicensePlateEngine, PlateResult,
    PlateShape};
use crate::engines::nms::{is_offset, kept_plates_are_candidates, kept_plates_descend_and_do_not_overlap,
    moved_plates_move_as_a_whole, nms_plates, offset_plate_box, suppresses, PlateBox};
use crate::engines::ocr_recognizer::{OcrRecognizer, ReadCalls};
use crate::engines::ocr_region::TextLine;
use crate::engines::plate_color::{classify_plate_color, plate_color};
use crate::engines::plate_crop::{crop_plate_box, crop_signed, crop_with_padding, is_padded_crop, is_plate_crop,
    is_signed_crop, is_smaller, CropCalls, PixelBounds};
use crate::engines::plate_image::{fits_detector, Placement};
use crate::engines::plate_output::{RawBox, RawPlate};
use crate::engines::plate_text::{is_reading_score, reading_score, PlateReading};
use crate::error::VisionError;
use crate::ieee::{Double, Single};
use crate::imaging::color::has_bgr3;
use crate::imaging::image::{lemma_byte_has_place, Image, Picture};
use crate::runtime::tensor::TensorOutput;

verus! {

/// The bit pattern of the number of pixels, 6.0, by which a plate is grown before it is read
/// as text.
pub const OCR_PADDING: u32 = 0x40c0_0000;

/// What reading plates calls.
pub struct PlateReadCalls<J, T, U> {
    /// Runs the recognition model on an input.
    pub infer: J,
    /// The probability of a class among the scores of a frame.
    pub probability: T,
    /// The mean of at least one value.
    pub mean: U,
}

impl<
    J: Fn(&Vec<u8>) -> Result<TensorOutput, VisionError>,
    T: Fn(&Vec<Single>, usize) -> Single,
    U: Fn(&Vec<Single>) -> Single,
> PlateReadCalls<J, T, U> {
    /// Whether everything can be called, and the model's answers are well formed.
    pub open spec fn are_callable(self) -> bool {
        &&& forall|input: &Vec<u8>| call_requires(self.infer, (input,))
        &&& forall|input: &Vec<u8>, reply: Result<TensorOutput, VisionError>|
            call_ensures(self.infer, (input,), reply) ==> is_good_reply(reply)
        &&& forall|scores: &Vec<Single>, class: usize| call_requires(self.probability, (scores, class))
        &&& forall|values: &Vec<Single>| values.len() > 0 ==> call_requires(self.mean, (values,))
    }
}

/// Whether an image can be taken: it can be scaled for the detector, its size can be
/// counted in an `i32`, and its bytes can be summed.
pub open spec fn can_take_image(p: Picture) -> bool {
    p.data.len() > 0 ==> {
        &&& fits_detector(p)
        &&& p.width <= i32::MAX
        &&& p.height <= i32::MAX
        &&& p.data.len() < 0x2000_0000_0000
    }
}

/// Whether an image can be taken.
pub fn is_recognizable(image: &Image) -> (r: bool)
    ensures
        r == can_take_image(image@),
{
    image.is_empty() || crate::engines::plate_image::can_detect(image) && image.width() <= i32::MAX as usize
        && image.height() <= i32::MAX as usize && (image.data().len() as u64) < 0x2000_0000_0000
}

/// Whether `result` is that of a plate: its box, the text that is read in what is cut out
/// for it, both confidences combined, and the colour of what is cut out.
pub open spec fn is_result_of<C: Fn(Single, Single) -> Double>(
    result: PlateResult,
    plate: PlateBox,
    cut: Picture,
    text: Seq<char>,
    score: Single,
    combine: C,
) -> bool {
    &&& result.bbox == plate.xyxy
    &&& result.text@ == text
    &&& call_ensures(combine, (plate.score, score), result.score)
    &&& result.plate_type is Some
    &&& result.plate_type->0@ == plate_color(cut)
}

/// What a plate gives that is read by the recognition model.
pub open spec fn is_plate_outcome<
    H,
    B: Fn(&PlateBox, Single) -> PixelBounds,
    M: Fn(&PlateBox, usize, usize) -> Option<H>,
    S: Fn(&Image, &H, usize, usize) -> Option<Vec<u8>>,
    J: Fn(&Vec<u8>) -> Result<TensorOutput, VisionError>,
    T: Fn(&Vec<Single>, usize) -> Single,
    U: Fn(&Vec<Single>) -> Single,
    C: Fn(Single, Single) -> Double,
>(
    r: Result<PlateResult, VisionError>,
    image: Picture,
    plate: PlateBox,
    crops: CropCalls<B, M, S>,
    read: PlateReadCalls<J, T, U>,
    combine: C,
) -> bool {
    exists|cut: Image, reading: Result<PlateReading, VisionError>|
        #![trigger is_plate_crop(cut, image, &plate, &crops), is_crop_reading(reading, cut@, read.infer)]
        is_plate_crop(cut, image, &plate, &crops) && is_crop_reading(reading, cut@, read.infer) && match reading {
            Err(e) => r is Err && r->Err_0 == e,
            Ok(reading) => r is Ok && exists|score: Single| #[trigger]
                is_reading_score(score, reading, read.probability, read.mean) && is_result_of(
                    r->Ok_0,
                    plate,
                    cut@,
                    reading.decoding.text@,
                    score,
                    combine,
                ),
        }
}

/// What a plate gives that is read as a line of text.
pub open spec fn is_text_outcome<
    B: Fn(&PlateBox, Single) -> PixelBounds,
    J: Fn(&Vec<Option<u8>>, usize, usize) -> Result<TensorOutput, VisionError>,
    T: Fn(&Vec<Single>) -> Single,
    C: Fn(Single, Single) -> Double,
>(
    r: Result<PlateResult, VisionError>,
    image: Picture,
    plate: PlateBox,
    ocr: OcrRecognizer,
    bounds: B,
    read: ReadCalls<J, T>,
    combine: C,
) -> bool {
    exists|at: PixelBounds, cut: Image, line: Result<TextLine, VisionError>|
        #![trigger is_padded_crop(cut@, image, at), ocr.is_line(line, cut@, read)]
        call_ensures(bounds, (&plate, Single { bits: OCR_PADDING }), at) && is_padded_crop(cut@, image, at)
            && ocr.is_line(line, cut@, read) && match line {
            Err(e) => r is Err && r->Err_0 == e,
            Ok(line) => r is Ok && is_result_of(r->Ok_0, plate, cut@, line.text@, line.score, combine),
        }
}

/// Whether all that is cut out of an image for a plate can be read as a line of text.
pub open spec fn can_read_cuts<B: Fn(&PlateBox, Single) -> PixelBounds>(
    ocr: OcrRecognizer,
    image: Picture,
    bounds: B,
) -> bool {
    forall|plate: &PlateBox, at: PixelBounds, cut: Image|
        #![trigger call_ensures(bounds, (plate, Single { bits: OCR_PADDING }), at), is_padded_crop(cut@, image, at)]
        image.data.len() > 0 && call_ensures(bounds, (plate, Single { bits: OCR_PADDING }), at) && cut.wf()
            && is_padded_crop(cut@, image, at) ==> ocr.can_take(cut)
}

/// What plates give one after the other: a result for each, or the error of the first that
/// gives one.
pub open spec fn are_plate_results(
    r: Result<Vec<PlateResult>, VisionError>,
    plates: Seq<PlateBox>,
    outcome: spec_fn(PlateBox, Result<PlateResult, VisionError>) -> bool,
) -> bool {
    match r {
        Ok(results) => {
            &&& results.len() == plates.len()
            &&& forall|i: int| 0 <= i < plates.len() ==> outcome(plates[i], Ok(#[trigger] results@[i]))
        },
        Err(e) => exists|done: Seq<PlateResult>|
            #![trigger done.len()]
            done.len() < plates.len() && outcome(plates[done.len() as int], Err(e)) && forall|i: int|
                0 <= i < done.len() ==> outcome(plates[i], Ok(#[trigger] done[i])),
    }
}

// ---------------------------------------------------------------------------
// Tiles
// ---------------------------------------------------------------------------

/// A tile of an image: left, top, right and bottom.
pub type Tile = [i32; 4];

/// Whether `cut` is what a tile cuts out of an image.
pub open spec fn is_tile(cut: Result<Image, VisionError>, image: Picture, tile: Tile) -> bool {
    is_signed_crop(cut, image, tile[0] as int, tile[1] as int, tile[2] - tile[0], tile[3] - tile[1])
}

/// Whether `boxes` are the plates found in a tile, moved to their place in the image.
pub open spec fn are_moved<D: Fn(Single, i32) -> Single>(
    boxes: Seq<PlateBox>,
    found: Seq<PlateBox>,
    tile: Tile,
    shift: D,
) -> bool {
    &&& boxes.len() == found.len()
    &&& forall|i: int| 0 <= i < found.len() ==> is_offset(#[trigger] boxes[i], found[i], tile[0], tile[1], shift)
}

impl LicensePlateEngine {
    /// Whether `boxes` are what one tile gives.
    pub open spec fn is_tile_result<
        I: Fn(&Vec<u8>) -> Result<Vec<TensorOutput>, VisionError>,
        A: Fn(&RawPlate, &Placement) -> PlateShape,
        G: Fn(&RawBox, &Placement) -> [Single; 4],
        O: Fn(&PlateBox, &PlateBox) -> Single,
        D: Fn(Single, i32) -> Single,
    >(
        self,
        boxes: Seq<PlateBox>,
        image: Picture,
        tile: Tile,
        threshold: Single,
        find: DetectorCalls<I, A, G, O>,
        shift: D,
    ) -> bool {
        exists|cut: Image, found: Vec<PlateBox>|
            #![trigger is_tile(Ok(cut), image, tile), self.is_detection(Ok(found), cut@, threshold, find)]
            is_tile(Ok(cut), image, tile) && self.is_detection(Ok(found), cut@, threshold, find) && are_moved(
                boxes,
                found@,
                tile,
                shift,
            )
    }

    /// Whether `e` is the error that one tile gives.
    pub open spec fn is_tile_error<
        I: Fn(&Vec<u8>) -> Result<Vec<TensorOutput>, VisionError>,
        A: Fn(&RawPlate, &Placement) -> PlateShape,
        G: Fn(&RawBox, &Placement) -> [Single; 4],
        O: Fn(&PlateBox, &PlateBox) -> Single,
    >(
        self,
        e: VisionError,
        image: Picture,
        tile: Tile,
        threshold: Single,
        find: DetectorCalls<I, A, G, O>,
    ) -> bool {
        ||| is_tile(Err(e), image, tile)
        ||| exists|cut: Image| #[trigger]
            is_tile(Ok(cut), image, tile) && self.is_detection(Err(e), cut@, threshold, find)
    }

    /// Whether `parts` are what the first tiles give.
    pub open spec fn are_tile_results<
        I: Fn(&Vec<u8>) -> Result<Vec<TensorOutput>, VisionError>,
        A: Fn(&RawPlate, &Placement) -> PlateShape,
        G: Fn(&RawBox, &Placement) -> [Single; 4],
        O: Fn(&PlateBox, &PlateBox) -> Single,
        D: Fn(Single, i32) -> Single,
    >(
        self,
        parts: Seq<Seq<PlateBox>>,
        image: Picture,
        tiles: Seq<Tile>,
        threshold: Single,
        find: DetectorCalls<I, A, G, O>,
        shift: D,
    ) -> bool {
        &&& parts.len() <= tiles.len()
        &&& forall|i: int|
            0 <= i < parts.len() ==> self.is_tile_result(#[trigger] parts[i], image, tiles[i], threshold, find, shift)
    }

    /// What the tiles of an image give together: all plates, or the error of the first tile
    /// that gives one.
    pub open spec fn are_tile_candidates<
        I: Fn(&Vec<u8>) -> Result<Vec<TensorOutput>, VisionError>,
        A: Fn(&RawPlate, &Placement) -> PlateShape,
        G: Fn(&RawBox, &Placement) -> [Single; 4],
        O: Fn(&PlateBox, &PlateBox) -> Single,
        D: Fn(Single, i32) -> Single,
    >(
        self,
        r: Result<Vec<PlateBox>, VisionError>,
        image: Picture,
        tiles: Seq<Tile>,
        threshold: Single,
        find: DetectorCalls<I, A, G, O>,
        shift: D,
    ) -> bool {
        exists|parts: Seq<Seq<PlateBox>>| #[trigger]
            self.are_tile_results(parts, image, tiles, threshold, find, shift) && match r {
                Ok(boxes) => parts.len() == tiles.len() && boxes@ == parts.flatten(),
                Err(e) => parts.len() < tiles.len() && self.is_tile_error(
                    e,
                    image,
                    tiles[parts.len() as int],
                    threshold,
                    find,
                ),
            }
    }

    fn detect_tile<
        I: Fn(&Vec<u8>) -> Result<Vec<TensorOutput>, VisionError>,
        A: Fn(&RawPlate, &Placement) -> PlateShape,
        G: Fn(&RawBox, &Placement) -> [Single; 4],
        O: Fn(&PlateBox, &PlateBox) -> Single,
        D: Fn(Single, i32) -> Single,
    >(&self, image: &Image, tile: Tile, threshold: Single, find: &DetectorCalls<I, A, G, O>, shift: &D) -> (r: Result<
        Vec<PlateBox>,
        VisionError,
    >)
        requires
            self.wf(),
            image.wf(),
            can_take_image(image@),
            find.are_callable(self.detector_kind, threshold),
            forall|x: Single, d: i32| call_requires(*shift, (x, d)),
        ensures
            r matches Ok(boxes) ==> self.is_tile_result(boxes@, image@, tile, threshold, *find, *shift),
            r matches Err(e) ==> self.is_tile_error(e, image@, tile, threshold, *find),
            r is Ok ==> image@.data.len() > 0 && has_bgr3(image@),
    {
        let (x, y) = (tile[0], tile[1]);
        let cut = match crop_signed(image, x, y, tile[2] as i64 - x as i64, tile[3] as i64 - y as i64) {
            Ok(cut) => cut,
            Err(e) => {
                return Err(e);
            },
        };
        assert(is_tile(Ok(cut), image@, tile));
        proof {
            lemma_part_fits(cut@, image@);
        }
        let found = match self.detect_plates(&cut, threshold, find) {
            Ok(found) => found,
            Err(e) => {
                assert(self.is_detection(Err(e), cut@, threshold, *find));
                return Err(e);
            },
        };
        assert(self.is_detection(Ok(found), cut@, threshold, *find));
        let mut boxes: Vec<PlateBox> = Vec::new();
        let mut k: usize = 0;
        while k < found.len()
            invariant
                forall|x: Single, d: i32| call_requires(*shift, (x, d)),
                k <= found.len(),
                boxes.len() == k,
                forall|j: int| 0 <= j < k ==> is_offset(#[trigger] boxes@[j], found@[j], x, y, *shift),
            decreases found.len() - k,
        {
            boxes.push(offset_plate_box(&found[k], x, y, shift));
            k += 1;
        }
        assert(are_moved(boxes@, found@, tile, *shift));
        Ok(boxes)
    }

    fn detect_tiles<
        I: Fn(&Vec<u8>) -> Result<Vec<TensorOutput>, VisionError>,
        A: Fn(&RawPlate, &Placement) -> PlateShape,
        G: Fn(&RawBox, &Placement) -> [Single; 4],
        O: Fn(&PlateBox, &PlateBox) -> Single,
        D: Fn(Single, i32) -> Single,
    >(
        &self,
        image: &Image,
        tiles: &Vec<Tile>,
        threshold: Single,
        find: &DetectorCalls<I, A, G, O>,
        shift: &D,
    ) -> (r: Result<Vec<PlateBox>, VisionError>)
        requires
            self.wf(),
            image.wf(),
            can_take_image(image@),
            find.are_callable(self.detector_kind, threshold),
            forall|x: Single, d: i32| call_requires(*shift, (x, d)),
        ensures
            self.are_tile_candidates(r, image@, tiles@, threshold, *find, *shift),
            r is Ok && tiles.len() > 0 ==> image@.data.len() > 0 && has_bgr3(image@),
    {
        let mut candidates: Vec<PlateBox> = Vec::new();
        let ghost mut parts: Seq<Seq<PlateBox>> = Seq::empty();
        let mut i: usize = 0;
        while i < tiles.len()
            invariant
                self.wf(),
                image.wf(),
                can_take_image(image@),
                find.are_callable(self.detector_kind, threshold),
                forall|x: Single, d: i32| call_requires(*shift, (x, d)),
                i <= tiles.len(),
                parts.len() == i,
                self.are_tile_results(parts, image@, tiles@, threshold, *find, *shift),
                candidates@ == parts.flatten(),
                i > 0 ==> image@.data.len() > 0 && has_bgr3(image@),
            decreases tiles.len() - i,
        {
            let mut boxes = match self.detect_tile(image, tiles[i], threshold, find, shift) {
                Ok(boxes) => boxes,
                Err(e) => {
                    return Err(e);
                },
            };
            proof {
                let longer = parts.push(boxes@);
                longer.lemma_flatten_and_flatten_alt_are_equivalent();
                parts.lemma_flatten_and_flatten_alt_are_equivalent();
                assert(longer.drop_last() =~= parts);
                assert(longer.last() == boxes@);
                parts = longer;
            }
            candidates.append(&mut boxes);
            i += 1;
        }
        Ok(candidates)
    }

    // -----------------------------------------------------------------------
    // Reading
    // -----------------------------------------------------------------------

    fn recognize_box<
        H,
        B: Fn(&PlateBox, Single) -> PixelBounds,
        M: Fn(&PlateBox, usize, usize) -> Option<H>,
        S: Fn(&Image, &H, usize, usize) -> Option<Vec<u8>>,
        J: Fn(&Vec<u8>) -> Result<TensorOutput, VisionError>,
        T: Fn(&Vec<Single>, usize) -> Single,
        U: Fn(&Vec<Single>) -> Single,
        C: Fn(Single, Single) -> Double,
    >(
        &self,
        image: &Image,
        plate: &PlateBox,
        crops: &CropCalls<B, M, S>,
        read: &PlateReadCalls<J, T, U>,
        combine: &C,
    ) -> (r: Result<PlateResult, VisionError>)
        requires
            image.wf(),
            image@.data.len() > 0,
            can_take_image(image@),
            has_bgr3(image@),
            crops.are_callable(),
            read.are_callable(),
            forall|a: Single, b: Single| call_requires(*combine, (a, b)),
        ensures
            is_plate_outcome(r, image@, *plate, *crops, *read, *combine),
    {
        proof {
            let _ = lemma_byte_has_place(image@, 0);
        }
        let cut = match crop_plate_box(image, plate, crops) {
            Ok(cut) => cut,
            Err(e) => {
                return Err(e);
            },
        };
        proof {
            if is_smaller(cut@, image@) {
                lemma_part_fits(cut@, image@);
            } else {
                let c = cut@.channels;
                assert(94 * 24 * c <= 94 * 24 * 4) by (nonlinear_arith)
                    requires
                        c <= 4,
                ;
            }
        }
        let reading = self.recognizer.recognize_crop(&cut, &read.infer);
        let ghost answered = reading;
        assert(is_crop_reading(answered, cut@, read.infer));
        let reading = match reading {
            Ok(reading) => reading,
            Err(e) => {
                return Err(e);
            },
        };
        let score = reading_score(&reading, &read.probability, &read.mean);
        assert(is_reading_score(score, reading, read.probability, read.mean));
        let result = PlateResult {
            bbox: plate.xyxy,
            text: String::from_str(reading.decoding.text.as_str()),
            score: combine(plate.score, score),
            plate_type: Some(classify_plate_color(&cut)),
        };
        assert(is_result_of(result, *plate, cut@, reading.decoding.text@, score, *combine));
        Ok(result)
    }

    fn recognize_boxes<
        H,
        B: Fn(&PlateBox, Single) -> PixelBounds,
        M: Fn(&PlateBox, usize, usize) -> Option<H>,
        S: Fn(&Image, &H, usize, usize) -> Option<Vec<u8>>,
        J: Fn(&Vec<u8>) -> Result<TensorOutput, VisionError>,
        T: Fn(&Vec<Single>, usize) -> Single,
        U: Fn(&Vec<Single>) -> Single,
        C: Fn(Single, Single) -> Double,
    >(
        &self,
        image: &Image,
        plates: &Vec<PlateBox>,
        crops: &CropCalls<B, M, S>,
        read: &PlateReadCalls<J, T, U>,
        combine: &C,
    ) -> (r: Result<Vec<PlateResult>, VisionError>)
        requires
            image.wf(),
            image@.data.len() > 0,
            can_take_image(image@),
            has_bgr3(image@),
            crops.are_callable(),
            read.are_callable(),
            forall|a: Single, b: Single| call_requires(*combine, (a, b)),
        ensures
            are_plate_results(
                r,
                plates@,
                |p: PlateBox, out: Result<PlateResult, VisionError>|
                    is_plate_outcome(out, image@, p, *crops, *read, *combine),
            ),
    {
        let mut results: Vec<PlateResult> = Vec::new();
        let mut i: usize = 0;
        while i < plates.len()
            invariant
                image.wf(),
                image@.data.len() > 0,
                can_take_image(image@),
                has_bgr3(image@),
                crops.are_callable(),
                read.are_callable(),
                forall|a: Single, b: Single| call_requires(*combine, (a, b)),
                i <= plates.len(),
                results.len() == i,
                forall|k: int|
                    0 <= k < i ==> is_plate_outcome(
                        Ok(#[trigger] results@[k]),
                        image@,
                        plates@[k],
                        *crops,
                        *read,
                        *combine,
                    ),
            decreases plates.len() - i,
        {
            match self.recognize_box(image, &plates[i], crops, read, combine) {
                Ok(result) => {
                    results.push(result);
                },
                Err(e) => {
                    assert(results@.len() == i);
                    return Err(e);
                },
            }
            i += 1;
        }
        Ok(results)
    }

    /// What finding and reading plates gives.
    pub open spec fn is_recognition<
        I: Fn(&Vec<u8>) -> Result<Vec<TensorOutput>, VisionError>,
        A: Fn(&RawPlate, &Placement) -> PlateShape,
        G: Fn(&RawBox, &Placement) -> [Single; 4],
        O: Fn(&PlateBox, &PlateBox) -> Single,
    >(
        self,
        r: Result<Vec<PlateResult>, VisionError>,
        image: Picture,
        threshold: Single,
        find: DetectorCalls<I, A, G, O>,
        outcome: spec_fn(PlateBox, Result<PlateResult, VisionError>) -> bool,
    ) -> bool {
        exists|found: Result<Vec<PlateBox>, VisionError>| #[trigger]
            self.is_detection(found, image, threshold, find) && match found {
                Err(e) => r is Err && r->Err_0 == e,
                Ok(plates) => are_plate_results(r, plates@, outcome),
            }
    }

    /// Finds plates that are at least as sure as the threshold, and reads them.
    pub fn recognize_impl<
        I: Fn(&Vec<u8>) -> Result<Vec<TensorOutput>, VisionError>,
        A: Fn(&RawPlate, &Placement) -> PlateShape,
        G: Fn(&RawBox, &Placement) -> [Single; 4],
        O: Fn(&PlateBox, &PlateBox) -> Single,
        H,
        B: Fn(&PlateBox, Single) -> PixelBounds,
        M: Fn(&PlateBox, usize, usize) -> Option<H>,
        S: Fn(&Image, &H, usize, usize) -> Option<Vec<u8>>,
        J: Fn(&Vec<u8>) -> Result<TensorOutput, VisionError>,
        T: Fn(&Vec<Single>, usize) -> Single,
        U: Fn(&Vec<Single>) -> Single,
        C: Fn(Single, Single) -> Double,
    >(
        &self,
        image: &Image,
        threshold: Single,
        find: &DetectorCalls<I, A, G, O>,
        crops: &CropCalls<B, M, S>,
        read: &PlateReadCalls<J, T, U>,
        combine: &C,
    ) -> (r: Result<Vec<PlateResult>, VisionError>)
        requires
            self.wf(),
            image.wf(),
            can_take_image(image@),
            find.are_callable(self.detector_kind, threshold),
            crops.are_callable(),
            read.are_callable(),
            forall|a: Single, b: Single| call_requires(*combine, (a, b)),
        ensures
            self.is_recognition(
                r,
                image@,
                threshold,
                *find,
                |p: PlateBox, out: Result<PlateResult, VisionError>|
                    is_plate_outcome(out, image@, p, *crops, *read, *combine),
            ),
    {
        let found = self.detect_plates(image, threshold, find);
        let ghost answered = found;
        assert(self.is_detection(answered, image@, threshold, *find));
        match found {
            Ok(plates) => self.recognize_boxes(image, &plates, crops, read, combine),
            Err(e) => Err(e),
        }
    }

    /// Finds plates that are at least as sure as the threshold, and reads them.
    pub fn recognize<
        I: Fn(&Vec<u8>) -> Result<Vec<TensorOutput>, VisionError>,
        A: Fn(&RawPlate, &Placement) -> PlateShape,
        G: Fn(&RawBox, &Placement) -> [Single; 4],
        O: Fn(&PlateBox, &PlateBox) -> Single,
        H,
        B: Fn(&PlateBox, Single) -> PixelBounds,
        M: Fn(&PlateBox, usize, usize) -> Option<H>,
        S: Fn(&Image, &H, usize, usize) -> Option<Vec<u8>>,
        J: Fn(&Vec<u8>) -> Result<TensorOutput, VisionError>,
        T: Fn(&Vec<Single>, usize) -> Single,
        U: Fn(&Vec<Single>) -> Single,
        C: Fn(Single, Single) -> Double,
    >(
        &self,
        image: &Image,
        threshold: Single,
        find: &DetectorCalls<I, A, G, O>,
        crops: &CropCalls<B, M, S>,
        read: &PlateReadCalls<J, T, U>,
        combine: &C,
    ) -> (r: Result<Vec<PlateResult>, VisionError>)
        requires
            self.wf(),
            image.wf(),
            can_take_image(image@),
            find.are_callable(self.detector_kind, threshold),
            crops.are_callable(),
            read.are_callable(),
            forall|a: Single, b: Single| call_requires(*combine, (a, b)),
        ensures
            self.is_recognition(
                r,
                image@,
                threshold,
                *find,
                |p: PlateBox, out: Result<PlateResult, VisionError>|
                    is_plate_outcome(out, image@, p, *crops, *read, *combine),
            ),
    {
        self.recognize_impl(image, threshold, find, crops, read, combine)
    }

    /// What finding plates tile by tile and reading them gives. With one tile at most, the
    /// image is taken as a whole.
    pub open spec fn is_sliced_recognition<
        I: Fn(&Vec<u8>) -> Result<Vec<TensorOutput>, VisionError>,
        A: Fn(&RawPlate, &Placement) -> PlateShape,
        G: Fn(&RawBox, &Placement) -> [Single; 4],
        O: Fn(&PlateBox, &PlateBox) -> Single,
        D: Fn(Single, i32) -> Single,
    >(
        self,
        r: Result<Vec<PlateResult>, VisionError>,
        image: Picture,
        tiles: Seq<Tile>,
        threshold: Single,
        find: DetectorCalls<I, A, G, O>,
        shift: D,
        outcome: spec_fn(PlateBox, Result<PlateResult, VisionError>) -> bool,
    ) -> bool {
        if tiles.len() <= 1 {
            self.is_recognition(r, image, threshold, find, outcome)
        } else {
            exists|candidates: Result<Vec<PlateBox>, VisionError>| #[trigger]
                self.are_tile_candidates(candidates, image, tiles, threshold, find, shift) && match candidates {
                    Err(e) => r is Err && r->Err_0 == e,
                    Ok(boxes) => exists|plates: Seq<PlateBox>| #[trigger]
                        suppresses(boxes@, find.iou, self.nms_threshold, plates) && are_plate_results(
                            r,
                            plates,
                            outcome,
                        ),
                }
        }
    }

    /// With one tile at most, finding and reading plates tile by tile is finding and reading
    /// them in the image as a whole.
    pub proof fn one_tile_is_the_whole_image<
        I: Fn(&Vec<u8>) -> Result<Vec<TensorOutput>, VisionError>,
        A: Fn(&RawPlate, &Placement) -> PlateShape,
        G: Fn(&RawBox, &Placement) -> [Single; 4],
        O: Fn(&PlateBox, &PlateBox) -> Single,
        D: Fn(Single, i32) -> Single,
    >(
        self,
        r: Result<Vec<PlateResult>, VisionError>,
        image: Picture,
        tiles: Seq<Tile>,
        threshold: Single,
        find: DetectorCalls<I, A, G, O>,
        shift: D,
        outcome: spec_fn(PlateBox, Result<PlateResult, VisionError>) -> bool,
    )
        requires
            tiles.len() <= 1,
        ensures
            self.is_sliced_recognition(r, image, tiles, threshold, find, shift, outcome) <==> self.is_recognition(
                r,
                image,
                threshold,
                find,
                outcome,
            ),
    {
    }

    /// Finds plates tile by tile, moves them to their place in the image, drops those that
    /// overlap better ones, and reads the rest in the image. `shift` adds a number of pixels
    /// to a coordinate.
    pub fn recognize_sliced<
        I: Fn(&Vec<u8>) -> Result<Vec<TensorOutput>, VisionError>,
        A: Fn(&RawPlate, &Placement) -> PlateShape,
        G: Fn(&RawBox, &Placement) -> [Single; 4],
        O: Fn(&PlateBox, &PlateBox) -> Single,
        D: Fn(Single, i32) -> Single,
        H,
        B: Fn(&PlateBox, Single) -> PixelBounds,
        M: Fn(&PlateBox, usize, usize) -> Option<H>,
        S: Fn(&Image, &H, usize, usize) -> Option<Vec<u8>>,
        J: Fn(&Vec<u8>) -> Result<TensorOutput, VisionError>,
        T: Fn(&Vec<Single>, usize) -> Single,
        U: Fn(&Vec<Single>) -> Single,
        C: Fn(Single, Single) -> Double,
    >(
        &self,
        image: &Image,
        tiles: &Vec<Tile>,
        threshold: Single,
        find: &DetectorCalls<I, A, G, O>,
        shift: &D,
        crops: &CropCalls<B, M, S>,
        read: &PlateReadCalls<J, T, U>,
        combine: &C,
    ) -> (r: Result<Vec<PlateResult>, VisionError>)
        requires
            self.wf(),
            image.wf(),
            can_take_image(image@),
            find.are_callable(self.detector_kind, threshold),
            forall|x: Single, d: i32| call_requires(*shift, (x, d)),
            crops.are_callable(),
            read.are_callable(),
            forall|a: Single, b: Single| call_requires(*combine, (a, b)),
        ensures
            self.is_sliced_recognition(
                r,
                image@,
                tiles@,
                threshold,
                *find,
                *shift,
                |p: PlateBox, out: Result<PlateResult, VisionError>|
                    is_plate_outcome(out, image@, p, *crops, *read, *combine),
            ),
    {
        if tiles.len() <= 1 {
            return self.recognize_impl(image, threshold, find, crops, read, combine);
        }
        let found = self.detect_tiles(image, tiles, threshold, find, shift);
        let ghost candidates = found;
        assert(self.are_tile_candidates(candidates, image@, tiles@, threshold, *find, *shift));
        let boxes = match found {
            Ok(boxes) => boxes,
            Err(e) => {
                return Err(e);
            },
        };
        let ghost all = boxes@;
        let plates = nms_plates(boxes, self.nms_threshold, &find.iou);
        assert(suppresses(all, find.iou, self.nms_threshold, plates@));
        self.recognize_boxes(image, &plates, crops, read, combine)
    }

    fn read_box<
        B: Fn(&PlateBox, Single) -> PixelBounds,
        J: Fn(&Vec<Option<u8>>, usize, usize) -> Result<TensorOutput, VisionError>,
        T: Fn(&Vec<Single>) -> Single,
        C: Fn(Single, Single) -> Double,
    >(
        &self,
        ocr: &OcrRecognizer,
        image: &Image,
        plate: &PlateBox,
        bounds: &B,
        read: &ReadCalls<J, T>,
        combine: &C,
    ) -> (r: Result<PlateResult, VisionError>)
        requires
            ocr.wf(),
            image.wf(),
            image@.data.len() > 0,
            can_take_image(image@),
            can_read_cuts(*ocr, image@, *bounds),
            forall|p: &PlateBox, padding: Single| call_requires(*bounds, (p, padding)),
            read.are_callable(),
            forall|a: Single, b: Single| call_requires(*combine, (a, b)),
        ensures
            is_text_outcome(r, image@, *plate, *ocr, *bounds, *read, *combine),
    {
        proof {
            let _ = lemma_byte_has_place(image@, 0);
        }
        let at = bounds(plate, Single { bits: OCR_PADDING });
        assert(call_ensures(*bounds, (plate, Single { bits: OCR_PADDING }), at));
        let cut = match crop_with_padding(image, at) {
            Ok(cut) => cut,
            Err(e) => {
                return Err(e);
            },
        };
        assert(is_padded_crop(cut@, image@, at));
        proof {
            lemma_part_fits(cut@, image@);
        }
        let line = ocr.recognize_line(&cut, read);
        let ghost answered = line;
        assert(ocr.is_line(answered, cut@, *read));
        let line = match line {
            Ok(line) => line,
            Err(e) => {
                return Err(e);
            },
        };
        let result = PlateResult {
            bbox: plate.xyxy,
            text: String::from_str(line.text.as_str()),
            score: combine(plate.score, line.score),
            plate_type: Some(classify_plate_color(&cut)),
        };
        assert(is_result_of(result, *plate, cut@, line.text@, line.score, *combine));
        Ok(result)
    }

    /// Finds plates that are at least as sure as the threshold, and reads them as lines of
    /// text.
    pub fn recognize_with_ocr<
        I: Fn(&Vec<u8>) -> Result<Vec<TensorOutput>, VisionError>,
        A: Fn(&RawPlate, &Placement) -> PlateShape,
        G: Fn(&RawBox, &Placement) -> [Single; 4],
        O: Fn(&PlateBox, &PlateBox) -> Single,
        B: Fn(&PlateBox, Single) -> PixelBounds,
        J: Fn(&Vec<Option<u8>>, usize, usize) -> Result<TensorOutput, VisionError>,
        T: Fn(&Vec<Single>) -> Single,
        C: Fn(Single, Single) -> Double,
    >(
        &self,
        ocr: &OcrRecognizer,
        image: &Image,
        threshold: Single,
        find: &DetectorCalls<I, A, G, O>,
        bounds: &B,
        read: &ReadCalls<J, T>,
        combine: &C,
    ) -> (r: Result<Vec<PlateResult>, VisionError>)
        requires
            self.wf(),
            ocr.wf(),
            image.wf(),
            can_take_image(image@),
            can_read_cuts(*ocr, image@, *bounds),
            find.are_callable(self.detector_kind, threshold),
            forall|p: &PlateBox, padding: Single| call_requires(*bounds, (p, padding)),
            read.are_callable(),
            forall|a: Single, b: Single| call_requires(*combine, (a, b)),
        ensures
            self.is_recognition(
                r,
                image@,
                threshold,
                *find,
                |p: PlateBox, out: Result<PlateResult, VisionError>|
                    is_text_outcome(out, image@, p, *ocr, *bounds, *read, *combine),
            ),
    {
        let found = self.detect_plates(image, threshold, find);
        let ghost answered = found;
        assert(self.is_detection(answered, image@, threshold, *find));
        let plates = match found {
            Ok(plates) => plates,
            Err(e) => {
                return Err(e);
            },
        };
        let mut results: Vec<PlateResult> = Vec::new();
        let mut i: usize = 0;
        while i < plates.len()
            invariant
                answered == Ok::<Vec<PlateBox>, VisionError>(plates),
                self.is_detection(answered, image@, threshold, *find),
                ocr.wf(),
                image.wf(),
                image@.data.len() > 0,
                can_take_image(image@),
                can_read_cuts(*ocr, image@, *bounds),
                forall|p: &PlateBox, padding: Single| call_requires(*bounds, (p, padding)),
                read.are_callable(),
                forall|a: Single, b: Single| call_requires(*combine, (a, b)),
                i <= plates.len(),
                results.len() == i,
                forall|k: int|
                    0 <= k < i ==> is_text_outcome(
                        Ok(#[trigger] results@[k]),
                        image@,
                        plates@[k],
                        *ocr,
                        *bounds,
                        *read,
                        *combine,
                    ),
            decreases plates.len() - i,
        {
            match self.read_box(ocr, image, &plates[i], bounds, read, combine) {
                Ok(result) => {
                    results.push(result);
                },
                Err(e) => {
                    assert(results@.len() == i);
                    return Err(e);
                },
            }
            i += 1;
        }
        Ok(results)
    }
}

/// A part of an image can be taken where the image can.
proof fn lemma_part_fits(part: Picture, whole: Picture)
    requires
        part.wf(),
        whole.wf(),
        part.channels == whole.channels,
        is_smaller(part, whole),
        can_take_image(whole),
    ensures
        can_take_image(part),
        part.data.len() > 0 <==> whole.data.len() > 0,
        whole.data.len() > 0 ==> fits_detector(part) && part.data.len() < 0x2000_0000_0000,
{
    let (a, b, c) = (part.width * part.height, whole.width * whole.height, part.channels);
    assert(0 < a <= b) by (nonlinear_arith)
        requires
            0 < part.width <= whole.width,
            0 < part.height <= whole.height,
            a == part.width * part.height,
            b == whole.width * whole.height,
    ;
    assert(a * c <= b * c && (a * c > 0 <==> b * c > 0)) by (nonlinear_arith)
        requires
            0 < a <= b,
            0 <= c,
    ;
}

/// An element of parts put together is one of a part.
proof fn lemma_in_a_part(parts: Seq<Seq<PlateBox>>, k: int) -> (at: (int, int))
    requires
        0 <= k < parts.flatten().len(),
    ensures
        0 <= at.0 < parts.len(),
        0 <= at.1 < parts[at.0].len(),
        parts[at.0][at.1] == parts.flatten()[k],
    decreases parts.len(),
{
    parts.lemma_flatten_and_flatten_alt_are_equivalent();
    if parts.len() == 0 {
        assert(parts.flatten().len() == 0);
        (0, 0)
    } else {
        let shorter = parts.drop_last();
        shorter.lemma_flatten_and_flatten_alt_are_equivalent();
        assert(parts.flatten() == shorter.flatten() + parts.last());
        if k < shorter.flatten().len() {
            lemma_in_a_part(shorter, k)
        } else {
            (parts.len() - 1, k - shorter.flatten().len())
        }
    }
}

impl LicensePlateEngine {
    /// Each candidate of a sliced search is a plate that was found in one of the tiles, moved to
    /// the right by the left of that tile and down by its top. A tile shows the image from there
    /// on.
    pub proof fn tile_candidates_stand_where_their_tile_stands<
        I: Fn(&Vec<u8>) -> Result<Vec<TensorOutput>, VisionError>,
        A: Fn(&RawPlate, &Placement) -> PlateShape,
        G: Fn(&RawBox, &Placement) -> [Single; 4],
        O: Fn(&PlateBox, &PlateBox) -> Single,
        D: Fn(Single, i32) -> Single,
    >(
        self,
        boxes: Vec<PlateBox>,
        image: Picture,
        tiles: Seq<Tile>,
        threshold: Single,
        find: DetectorCalls<I, A, G, O>,
        shift: D,
        k: int,
    ) -> (r: (int, Image, Vec<PlateBox>, int))
        requires
            self.are_tile_candidates(Ok(boxes), image, tiles, threshold, find, shift),
            0 <= k < boxes.len(),
        ensures
            ({
                let (i, cut, found, j) = r;
                let tile = tiles[i];
                &&& 0 <= i < tiles.len()
                &&& self.is_detection(Ok(found), cut@, threshold, find)
                &&& 0 <= j < found.len()
                &&& boxes@[k].score == found@[j].score
                &&& call_ensures(shift, (found@[j].xyxy@[0], tile[0]), boxes@[k].xyxy@[0])
                &&& call_ensures(shift, (found@[j].xyxy@[1], tile[1]), boxes@[k].xyxy@[1])
                &&& call_ensures(shift, (found@[j].xyxy@[2], tile[0]), boxes@[k].xyxy@[2])
                &&& call_ensures(shift, (found@[j].xyxy@[3], tile[1]), boxes@[k].xyxy@[3])
                &&& cut@.sized(tile[2] - tile[0], tile[3] - tile[1], image.channels)
                &&& forall|x: int, y: int, c: int| #[trigger]
                    cut@.has(x, y, c) ==> cut@.at(x, y, c) == image.at(tile[0] + x, tile[1] + y, c)
            }),
    {
        let result: Result<Vec<PlateBox>, VisionError> = Ok(boxes);
        let parts = choose|parts: Seq<Seq<PlateBox>>| #[trigger]
            self.are_tile_results(parts, image, tiles, threshold, find, shift) && match result {
                Ok(boxes) => parts.len() == tiles.len() && boxes@ == parts.flatten(),
                Err(e) => parts.len() < tiles.len() && self.is_tile_error(
                    e,
                    image,
                    tiles[parts.len() as int],
                    threshold,
                    find,
                ),
            };
        let (i, j) = lemma_in_a_part(parts, k);
        assert(self.is_tile_result(parts[i], image, tiles[i], threshold, find, shift));
        let (cut, found) = choose|cut: Image, found: Vec<PlateBox>|
            #![trigger is_tile(Ok(cut), image, tiles[i]), self.is_detection(Ok(found), cut@, threshold, find)]
            is_tile(Ok(cut), image, tiles[i]) && self.is_detection(Ok(found), cut@, threshold, find) && are_moved(
                parts[i],
                found@,
                tiles[i],
                shift,
            );
        assert(is_offset(parts[i][j], found@[j], tiles[i][0], tiles[i][1], shift));
        moved_plates_move_as_a_whole(parts[i][j], found@[j], tiles[i][0], tiles[i][1], shift, 0);
        (i, cut, found, j)
    }
}

/// The result of a plate has the box of the plate, the text of the reading, both confidences
/// combined, and the colour of what was cut out.
pub proof fn results_belong_to_their_plate<
    H,
    B: Fn(&PlateBox, Single) -> PixelBounds,
    M: Fn(&PlateBox, usize, usize) -> Option<H>,
    S: Fn(&Image, &H, usize, usize) -> Option<Vec<u8>>,
    J: Fn(&Vec<u8>) -> Result<TensorOutput, VisionError>,
    T: Fn(&Vec<Single>, usize) -> Single,
    U: Fn(&Vec<Single>) -> Single,
    C: Fn(Single, Single) -> Double,
>(
    result: PlateResult,
    image: Picture,
    plate: PlateBox,
    crops: CropCalls<B, M, S>,
    read: PlateReadCalls<J, T, U>,
    combine: C,
) -> (r: (Image, PlateReading, Single))
    requires
        is_plate_outcome(Ok(result), image, plate, crops, read, combine),
    ensures
        ({
            let (cut, reading, score) = r;
            &&& is_plate_crop(cut, image, &plate, &crops)
            &&& is_crop_reading(Ok(reading), cut@, read.infer)
            &&& is_reading_score(score, reading, read.probability, read.mean)
            &&& result.bbox@ == plate.xyxy@
            &&& result.text@ == reading.decoding.text@
            &&& call_ensures(combine, (plate.score, score), result.score)
            &&& result.plate_type is Some && result.plate_type->0@ == plate_color(cut@)
        }),
{
    let outcome: Result<PlateResult, VisionError> = Ok(result);
    let (cut, reading) = choose|cut: Image, reading: Result<PlateReading, VisionError>|
        #![trigger is_plate_crop(cut, image, &plate, &crops), is_crop_reading(reading, cut@, read.infer)]
        is_plate_crop(cut, image, &plate, &crops) && is_crop_reading(reading, cut@, read.infer) && match reading {
            Err(e) => outcome is Err && outcome->Err_0 == e,
            Ok(reading) => outcome is Ok && exists|score: Single| #[trigger]
                is_reading_score(score, reading, read.probability, read.mean) && is_result_of(
                    outcome->Ok_0,
                    plate,
                    cut@,
                    reading.decoding.text@,
                    score,
                    combine,
                ),
        };
    let score = choose|score: Single| #[trigger]
        is_reading_score(score, reading->Ok_0, read.probability, read.mean) && is_result_of(
            result,
            plate,
            cut@,
            reading->Ok_0.decoding.text@,
            score,
            combine,
        );
    (cut, reading->Ok_0, score)
}

/// Each plate has its own result, in the order of the plates. If there is an error instead, it is
/// that of the first plate that gives one: the plates before it have results.
pub proof fn each_plate_has_its_result(
    r: Result<Vec<PlateResult>, VisionError>,
    plates: Seq<PlateBox>,
    outcome: spec_fn(PlateBox, Result<PlateResult, VisionError>) -> bool,
) -> (done: Seq<PlateResult>)
    requires
        are_plate_results(r, plates, outcome),
    ensures
        forall|i: int| 0 <= i < done.len() ==> outcome(plates[i], Ok(#[trigger] done[i])),
        r is Ok ==> done.len() == plates.len() && r->Ok_0@ == done,
        r is Err ==> done.len() < plates.len() && outcome(plates[done.len() as int], Err(r->Err_0)),
{
    if r is Ok {
        r->Ok_0@
    } else {
        let e = r->Err_0;
        choose|done: Seq<PlateResult>|
            #![trigger done.len()]
            done.len() < plates.len() && outcome(plates[done.len() as int], Err(e)) && forall|i: int|
                0 <= i < done.len() ==> outcome(plates[i], Ok(#[trigger] done[i]))
    }
}

/// A plate that is read as text is cut out six pixels further out at each side, moved into the
/// image. Its result has the box of the plate, the text of the line, both confidences combined,
/// and the colour of what was cut out.
pub proof fn text_results_belong_to_their_plate<
    B: Fn(&PlateBox, Single) -> PixelBounds,
    J: Fn(&Vec<Option<u8>>, usize, usize) -> Result<TensorOutput, VisionError>,
    T: Fn(&Vec<Single>) -> Single,
    C: Fn(Single, Single) -> Double,
>(
    result: PlateResult,
    image: Picture,
    plate: PlateBox,
    ocr: OcrRecognizer,
    bounds: B,
    read: ReadCalls<J, T>,
    combine: C,
) -> (r: (PixelBounds, Image, TextLine))
    requires
        is_text_outcome(Ok(result), image, plate, ocr, bounds, read, combine),
    ensures
        ({
            let (at, cut, line) = r;
            &&& call_ensures(bounds, (&plate, Single { bits: 0x40c0_0000 }), at)
            &&& is_padded_crop(cut@, image, at)
            &&& ocr.is_line(Ok(line), cut@, read)
            &&& result.bbox@ == plate.xyxy@
            &&& result.text@ == line.text@
            &&& call_ensures(combine, (plate.score, line.score), result.score)
            &&& result.plate_type is Some && result.plate_type->0@ == plate_color(cut@)
        }),
{
    let outcome: Result<PlateResult, VisionError> = Ok(result);
    let (at, cut, line) = choose|at: PixelBounds, cut: Image, line: Result<TextLine, VisionError>|
        #![trigger is_padded_crop(cut@, image, at), ocr.is_line(line, cut@, read)]
        call_ensures(bounds, (&plate, Single { bits: OCR_PADDING }), at) && is_padded_crop(cut@, image, at)
            && ocr.is_line(line, cut@, read) && match line {
            Err(e) => outcome is Err && outcome->Err_0 == e,
            Ok(line) => outcome is Ok && is_result_of(outcome->Ok_0, plate, cut@, line.text@, line.score, combine),
        };
    (at, cut, line->Ok_0)
}

/// A part of several lists stands in one piece among them.
proof fn lemma_part_in_flat(parts: Seq<Seq<PlateBox>>, i: int) -> (at: int)
    requires
        0 <= i < parts.len(),
    ensures
        0 <= at,
        at + parts[i].len() <= parts.flatten().len(),
        forall|j: int| 0 <= j < parts[i].len() ==> parts.flatten()[at + j] == #[trigger] parts[i][j],
    decreases parts.len(),
{
    let shorter = parts.drop_last();
    parts.lemma_flatten_and_flatten_alt_are_equivalent();
    shorter.lemma_flatten_and_flatten_alt_are_equivalent();
    assert(parts.flatten() == shorter.flatten() + parts.last());
    if i == parts.len() - 1 {
        shorter.flatten().len() as int
    } else {
        let at = lemma_part_in_flat(shorter, i);
        assert(shorter[i] == parts[i]);
        at
    }
}

/// No tile is left out: all plates that were found in a tile are candidates, one after the
/// other, each moved by the left and the top of the tile.
pub proof fn every_tile_gives_its_candidates<
    I: Fn(&Vec<u8>) -> Result<Vec<TensorOutput>, VisionError>,
    A: Fn(&RawPlate, &Placement) -> PlateShape,
    G: Fn(&RawBox, &Placement) -> [Single; 4],
    O: Fn(&PlateBox, &PlateBox) -> Single,
    D: Fn(Single, i32) -> Single,
>(
    engine: LicensePlateEngine,
    boxes: Vec<PlateBox>,
    image: Picture,
    tiles: Seq<Tile>,
    threshold: Single,
    find: DetectorCalls<I, A, G, O>,
    shift: D,
    i: int,
) -> (r: (Image, Vec<PlateBox>, int))
    requires
        engine.are_tile_candidates(Ok(boxes), image, tiles, threshold, find, shift),
        0 <= i < tiles.len(),
    ensures
        ({
            let (cut, found, at) = r;
            &&& is_tile(Ok(cut), image, tiles[i])
            &&& engine.is_detection(Ok(found), cut@, threshold, find)
            &&& 0 <= at
            &&& at + found.len() <= boxes.len()
            &&& forall|j: int|
                0 <= j < found.len() ==> {
                    &&& boxes@[at + j].score == (#[trigger] found@[j]).score
                    &&& call_ensures(shift, (found@[j].xyxy@[0], tiles[i][0]), boxes@[at + j].xyxy@[0])
                    &&& call_ensures(shift, (found@[j].xyxy@[1], tiles[i][1]), boxes@[at + j].xyxy@[1])
                    &&& call_ensures(shift, (found@[j].xyxy@[2], tiles[i][0]), boxes@[at + j].xyxy@[2])
                    &&& call_ensures(shift, (found@[j].xyxy@[3], tiles[i][1]), boxes@[at + j].xyxy@[3])
                }
        }),
{
    let result: Result<Vec<PlateBox>, VisionError> = Ok(boxes);
    let parts = choose|parts: Seq<Seq<PlateBox>>| #[trigger]
        engine.are_tile_results(parts, image, tiles, threshold, find, shift) && match result {
            Ok(boxes) => parts.len() == tiles.len() && boxes@ == parts.flatten(),
            Err(e) => parts.len() < tiles.len() && engine.is_tile_error(
                e,
                image,
                tiles[parts.len() as int],
                threshold,
                find,
            ),
        };
    assert(engine.is_tile_result(parts[i], image, tiles[i], threshold, find, shift));
    let (cut, found) = choose|cut: Image, found: Vec<PlateBox>|
        #![trigger is_tile(Ok(cut), image, tiles[i]), engine.is_detection(Ok(found), cut@, threshold, find)]
        is_tile(Ok(cut), image, tiles[i]) && engine.is_detection(Ok(found), cut@, threshold, find) && are_moved(
            parts[i],
            found@,
            tiles[i],
            shift,
        );
    let at = lemma_part_in_flat(parts, i);
    assert forall|j: int| 0 <= j < found.len() implies {
        &&& boxes@[at + j].score == (#[trigger] found@[j]).score
        &&& call_ensures(shift, (found@[j].xyxy@[0], tiles[i][0]), boxes@[at + j].xyxy@[0])
        &&& call_ensures(shift, (found@[j].xyxy@[1], tiles[i][1]), boxes@[at + j].xyxy@[1])
        &&& call_ensures(shift, (found@[j].xyxy@[2], tiles[i][0]), boxes@[at + j].xyxy@[2])
        &&& call_ensures(shift, (found@[j].xyxy@[3], tiles[i][1]), boxes@[at + j].xyxy@[3])
    } by {
        assert(is_offset(parts[i][j], found@[j], tiles[i][0], tiles[i][1], shift));
        moved_plates_move_as_a_whole(parts[i][j], found@[j], tiles[i][0], tiles[i][1], shift, 0);
    }
    (cut, found, at)
}

/// The plates of a sliced search are candidates of its tiles. Like those of a search in the whole
/// image they are sure, from the surest down, and none overlaps another by more than the
/// threshold of the engine. Each has its own result.
pub proof fn sliced_plates_are_sure_and_apart<
    I: Fn(&Vec<u8>) -> Result<Vec<TensorOutput>, VisionError>,
    A: Fn(&RawPlate, &Placement) -> PlateShape,
    G: Fn(&RawBox, &Placement) -> [Single; 4],
    O: Fn(&PlateBox, &PlateBox) -> Single,
    D: Fn(Single, i32) -> Single,
>(
    engine: LicensePlateEngine,
    results: Vec<PlateResult>,
    image: Picture,
    tiles: Seq<Tile>,
    threshold: Single,
    find: DetectorCalls<I, A, G, O>,
    shift: D,
    outcome: spec_fn(PlateBox, Result<PlateResult, VisionError>) -> bool,
) -> (r: (Vec<PlateBox>, Seq<PlateBox>))
    requires
        tiles.len() > 1,
        engine.is_sliced_recognition(Ok(results), image, tiles, threshold, find, shift, outcome),
    ensures
        ({
            let (boxes, plates) = r;
            &&& engine.are_tile_candidates(Ok(boxes), image, tiles, threshold, find, shift)
            &&& results.len() == plates.len()
            &&& forall|i: int| 0 <= i < plates.len() ==> outcome(plates[i], Ok(#[trigger] results@[i]))
            &&& forall|i: int|
                0 <= i < plates.len() ==> boxes@.contains(#[trigger] plates[i]) && !threshold.greater(plates[i].score)
            &&& forall|i: int, j: int|
                0 <= i < j < plates.len() ==> !(#[trigger] plates[j]).score.greater((#[trigger] plates[i]).score)
                    && exists|overlap: Single| #[trigger]
                    call_ensures(find.iou, (&plates[i], &plates[j]), overlap) && !overlap.greater(engine.nms_threshold)
        }),
{
    let result: Result<Vec<PlateResult>, VisionError> = Ok(results);
    let candidates = choose|candidates: Result<Vec<PlateBox>, VisionError>| #[trigger]
        engine.are_tile_candidates(candidates, image, tiles, threshold, find, shift) && match candidates {
            Err(e) => result is Err && result->Err_0 == e,
            Ok(boxes) => exists|plates: Seq<PlateBox>| #[trigger]
                suppresses(boxes@, find.iou, engine.nms_threshold, plates) && are_plate_results(
                    result,
                    plates,
                    outcome,
                ),
        };
    let boxes = candidates->Ok_0;
    let plates = choose|plates: Seq<PlateBox>| #[trigger]
        suppresses(boxes@, find.iou, engine.nms_threshold, plates) && are_plate_results(result, plates, outcome);
    assert forall|i: int| 0 <= i < plates.len() implies boxes@.contains(#[trigger] plates[i]) && !threshold.greater(
        plates[i].score,
    ) by {
        kept_plates_are_candidates(boxes@, find.iou, engine.nms_threshold, plates, i);
        let k = choose|k: int| 0 <= k < boxes@.len() && boxes@[k] == plates[i];
        let (_, cut, found, j) = engine.tile_candidates_stand_where_their_tile_stands(
            boxes,
            image,
            tiles,
            threshold,
            find,
            shift,
            k,
        );
        engine.found_plates_are_sure_and_apart(found, cut@, threshold, find);
        assert(!threshold.greater(found@[j].score));
    }
    assert forall|i: int, j: int| 0 <= i < j < plates.len() implies !(#[trigger] plates[j]).score.greater(
        (#[trigger] plates[i]).score,
    ) && exists|overlap: Single| #[trigger]
        call_ensures(find.iou, (&plates[i], &plates[j]), overlap) && !overlap.greater(engine.nms_threshold) by {
        kept_plates_descend_and_do_not_overlap(boxes@, find.iou, engine.nms_threshold, plates, i, j);
    }
    (boxes, plates)
}

} // verus!
