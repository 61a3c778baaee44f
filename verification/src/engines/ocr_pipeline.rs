//! Finding and reading text.

use vstd::prelude::*;

use crate::engines::components::Component;
use crate::engines::ocr_crop::{crop_region, is_cut_line, LineCalls, LineMeasure, LineSpot, Surroundings};
use crate::engines::ocr_detector::{is_good_map, MapFrame, OcrDetector, TextCalls};
use crate::engines::ocr_recognizer::{lines_are_read_in_one_batch, OcrRecognizer, ReadCalls};
use crate::engines::ocr_region::{TextLine, TextRegion};
use crate::error::{fails, ErrorKind, VisionError};
use crate::ieee::Single;
use crate::imaging::image::{Image, Picture};
use crate::runtime::base::{opening_error, Environment, ModelFile};
use crate::runtime::device_type::DeviceType;
use crate::runtime::runtime_config::{default_config, OnnxRuntimeConfig};
use crate::runtime::session_factory::limit_fits;
use crate::runtime::tensor::TensorOutput;

verus! {

/// Finds and reads text.
#[derive(Debug)]
pub struct OcrPipeline {
    pub detector: OcrDetector,
    pub recognizer: OcrRecognizer,
}

/// Whether `pairs` are the regions, each with its line, as far as there are lines.
pub open spec fn are_paired(
    pairs: Seq<(TextRegion, TextLine)>,
    regions: Seq<TextRegion>,
    lines: Seq<TextLine>,
) -> bool {
    &&& pairs.len() == if regions.len() < lines.len() {
        regions.len()
    } else {
        lines.len()
    }
    &&& forall|i: int| 0 <= i < pairs.len() ==> #[trigger] pairs[i] == (regions[i], lines[i])
}

/// Pairs regions with their lines.
pub fn pair_lines(regions: Vec<TextRegion>, lines: Vec<TextLine>) -> (pairs: Vec<(TextRegion, TextLine)>)
    ensures
        are_paired(pairs@, regions@, lines@),
{
    let ghost all = lines@;
    let mut rest = lines;
    let mut pairs: Vec<(TextRegion, TextLine)> = Vec::new();
    let mut i: usize = 0;
    while i < regions.len() && i < rest.len()
        invariant
            i <= regions.len(),
            i <= rest.len(),
            rest.len() == all.len(),
            forall|k: int| i <= k < all.len() ==> #[trigger] rest@[k] == all[k],
            pairs.len() == i,
            forall|k: int| 0 <= k < i ==> #[trigger] pairs@[k] == (regions@[k], all[k]),
        decreases regions.len() - i,
    {
        let mut line = TextLine { text: String::new(), score: regions[i].score };
        std::mem::swap(&mut rest[i], &mut line);
        assert(line == all[i as int]);
        pairs.push((regions[i], line));
        i += 1;
    }
    pairs
}

impl OcrPipeline {
    /// The error on models or a dictionary that cannot be opened, if there is one: that of
    /// the detector, then that of the recognizer.
    pub open spec fn error_of(
        det: ModelFile,
        rec: ModelFile,
        dict_path: Seq<char>,
        dict_content: Seq<char>,
        config: OnnxRuntimeConfig,
    ) -> Option<(ErrorKind, Seq<char>)> {
        if opening_error(det, config) is Some {
            opening_error(det, config)
        } else {
            OcrRecognizer::error_of(rec, dict_path, dict_content, config)
        }
    }

    /// Whether a pipeline is opened from models and a dictionary.
    pub open spec fn is_opened(
        r: Result<OcrPipeline, VisionError>,
        det: ModelFile,
        rec: ModelFile,
        dict_path: Seq<char>,
        dict_content: Seq<char>,
        device: DeviceType,
        config: OnnxRuntimeConfig,
        env: Environment,
    ) -> bool {
        match OcrPipeline::error_of(det, rec, dict_path, dict_content, config) {
            Some((error, message)) => fails(r, error, message),
            None => {
                &&& r is Ok
                &&& OcrDetector::is_opened(Ok(r->Ok_0.detector), det, device, config, env)
                &&& OcrRecognizer::is_opened(
                    Ok(r->Ok_0.recognizer),
                    rec,
                    dict_path,
                    dict_content,
                    device,
                    config,
                    env,
                )
            },
        }
    }

    /// Opens a pipeline with the dictionary that was read from `dict_path`.
    pub fn new(
        det_model: &ModelFile,
        rec_model: &ModelFile,
        dict_path: &str,
        dict_content: &str,
        device_type: DeviceType,
        env: &Environment,
    ) -> (r: Result<OcrPipeline, VisionError>)
        requires
            limit_fits(device_type, default_config(env.limit), env.enabled),
        ensures
            OcrPipeline::is_opened(
                r,
                *det_model,
                *rec_model,
                dict_path@,
                dict_content@,
                device_type,
                default_config(env.limit),
                *env,
            ),
    {
        OcrPipeline::with_config(
            det_model,
            rec_model,
            dict_path,
            dict_content,
            device_type,
            OnnxRuntimeConfig::defaults(&env.limit),
            env,
        )
    }

    /// Opens a pipeline with the dictionary that was read from `dict_path`.
    pub fn with_config(
        det_model: &ModelFile,
        rec_model: &ModelFile,
        dict_path: &str,
        dict_content: &str,
        device_type: DeviceType,
        runtime_config: OnnxRuntimeConfig,
        env: &Environment,
    ) -> (r: Result<OcrPipeline, VisionError>)
        requires
            limit_fits(device_type, runtime_config, env.enabled),
        ensures
            OcrPipeline::is_opened(
                r,
                *det_model,
                *rec_model,
                dict_path@,
                dict_content@,
                device_type,
                runtime_config,
                *env,
            ),
    {
        let detector = match OcrDetector::with_config(det_model, device_type, runtime_config, env) {
            Ok(detector) => detector,
            Err(e) => {
                return Err(e);
            },
        };
        let recognizer = match OcrRecognizer::with_config(
            rec_model,
            dict_path,
            dict_content,
            device_type,
            runtime_config,
            env,
        ) {
            Ok(recognizer) => recognizer,
            Err(e) => {
                return Err(e);
            },
        };
        Ok(OcrPipeline { detector, recognizer })
    }

    /// Cuts the line of a region out of an image, to look at it.
    pub fn crop_line_for_debug<
        E: Fn(&TextRegion) -> LineMeasure,
        L: Fn(&TextRegion, LineSpot) -> Option<(usize, usize)>,
        B: Fn(&TextRegion, LineSpot, Surroundings) -> u8,
    >(&self, image: &Image, region: &TextRegion, lines: &LineCalls<E, L, B>) -> (r: Result<Image, VisionError>)
        requires
            image.wf(),
            image@.channels >= 1,
            lines.are_callable(image@),
        ensures
            r is Ok,
            is_cut_line(r->Ok_0, image@, region, lines),
    {
        Ok(crop_region(image, region, lines))
    }

    /// What reading the regions of an image gives: nothing where there are none, else each
    /// region with its line.
    pub open spec fn is_reading<
        E: Fn(&TextRegion) -> LineMeasure,
        L: Fn(&TextRegion, LineSpot) -> Option<(usize, usize)>,
        B: Fn(&TextRegion, LineSpot, Surroundings) -> u8,
        I: Fn(&Vec<Option<u8>>, usize, usize) -> Result<TensorOutput, VisionError>,
        S: Fn(&Vec<Single>) -> Single,
    >(
        self,
        r: Result<Vec<(TextRegion, TextLine)>, VisionError>,
        image: Picture,
        regions: Seq<TextRegion>,
        lines: LineCalls<E, L, B>,
        read: ReadCalls<I, S>,
    ) -> bool {
        if regions.len() == 0 {
            r is Ok && r->Ok_0.len() == 0
        } else {
            exists|texts: Result<Vec<TextLine>, VisionError>| #[trigger]
                self.recognizer.is_batch_reading(texts, image, regions, lines, read) && match texts {
                    Err(e) => r is Err && r->Err_0 == e,
                    Ok(texts) => r is Ok && are_paired(r->Ok_0@, regions, texts@),
                }
        }
    }

    /// What finding and reading text gives.
    pub open spec fn is_recognition<
        D: Fn(&Vec<u8>, usize, usize) -> Result<TensorOutput, VisionError>,
        P: Fn(&Vec<Single>) -> Single,
        Q: Fn(&Component, &MapFrame) -> Option<[[Single; 2]; 4]>,
        K: Fn(&TextRegion) -> (Single, Single),
        E: Fn(&TextRegion) -> LineMeasure,
        L: Fn(&TextRegion, LineSpot) -> Option<(usize, usize)>,
        B: Fn(&TextRegion, LineSpot, Surroundings) -> u8,
        I: Fn(&Vec<Option<u8>>, usize, usize) -> Result<TensorOutput, VisionError>,
        S: Fn(&Vec<Single>) -> Single,
    >(
        self,
        r: Result<Vec<(TextRegion, TextLine)>, VisionError>,
        image: Picture,
        infer: D,
        find: TextCalls<P, Q, K>,
        lines: LineCalls<E, L, B>,
        read: ReadCalls<I, S>,
    ) -> bool {
        exists|found: Result<Vec<TextRegion>, VisionError>| #[trigger]
            self.detector.is_detection(found, image, infer, find) && match found {
                Err(e) => r is Err && r->Err_0 == e,
                Ok(regions) => self.is_reading(r, image, regions@, lines, read),
            }
    }

    /// Finds text in an image and reads all of it. `infer` runs the detector.
    pub fn recognize<
        D: Fn(&Vec<u8>, usize, usize) -> Result<TensorOutput, VisionError>,
        P: Fn(&Vec<Single>) -> Single,
        Q: Fn(&Component, &MapFrame) -> Option<[[Single; 2]; 4]>,
        K: Fn(&TextRegion) -> (Single, Single),
        E: Fn(&TextRegion) -> LineMeasure,
        L: Fn(&TextRegion, LineSpot) -> Option<(usize, usize)>,
        B: Fn(&TextRegion, LineSpot, Surroundings) -> u8,
        I: Fn(&Vec<Option<u8>>, usize, usize) -> Result<TensorOutput, VisionError>,
        S: Fn(&Vec<Single>) -> Single,
    >(
        &self,
        image: &Image,
        infer: &D,
        find: &TextCalls<P, Q, K>,
        lines: &LineCalls<E, L, B>,
        read: &ReadCalls<I, S>,
    ) -> (r: Result<Vec<(TextRegion, TextLine)>, VisionError>)
        requires
            self.recognizer.wf(),
            image.wf(),
            image@.data.len() > 0 ==> self.detector.fits(image@),
            forall|input: &Vec<u8>, w: usize, h: usize| call_requires(*infer, (input, w, h)),
            forall|input: &Vec<u8>, w: usize, h: usize, reply: Result<TensorOutput, VisionError>|
                call_ensures(*infer, (input, w, h), reply) ==> is_good_map(reply),
            find.are_callable(),
            lines.are_callable(image@),
            self.recognizer.can_take_lines(*lines),
            read.are_callable(),
        ensures
            self.is_recognition(r, image@, *infer, *find, *lines, *read),
    {
        let found = self.detector.detect(image, infer, find);
        let ghost answered = found;
        assert(self.detector.is_detection(answered, image@, *infer, *find));
        let regions = match found {
            Ok(regions) => regions,
            Err(e) => {
                return Err(e);
            },
        };
        if regions.len() == 0 {
            return Ok(Vec::new());
        }
        let ghost all = regions@;
        let texts = self.recognizer.recognize_batch(image, &regions, lines, read);
        let ghost texts_read = texts;
        assert(self.recognizer.is_batch_reading(texts_read, image@, all, *lines, *read));
        let r = match texts {
            Ok(texts) => Ok(pair_lines(regions, texts)),
            Err(e) => Err(e),
        };
        assert(self.is_reading(r, image@, all, *lines, *read));
        r
    }

    /// The score below which a region is dropped.
    pub fn confidence_threshold(&self) -> (r: Single)
        ensures
            r == self.detector.det_box_thresh,
    {
        self.detector.box_thresh()
    }

    /// Sets the score below which a region is dropped.
    pub fn set_confidence_threshold(&mut self, threshold: Single)
        ensures
            *final(self) == (OcrPipeline {
                detector: OcrDetector { det_box_thresh: threshold, ..old(self).detector },
                recognizer: old(self).recognizer,
            }),
    {
        self.detector.set_box_thresh(threshold);
    }
}

/// Every region that is found has its line: there are as many pairs as regions, in the order of
/// the regions, and the line of a pair is the one that was read at the same place of the batch,
/// where the image is cut out for that region.
pub proof fn each_region_has_its_line<
    D: Fn(&Vec<u8>, usize, usize) -> Result<TensorOutput, VisionError>,
    P: Fn(&Vec<Single>) -> Single,
    Q: Fn(&Component, &MapFrame) -> Option<[[Single; 2]; 4]>,
    K: Fn(&TextRegion) -> (Single, Single),
    E: Fn(&TextRegion) -> LineMeasure,
    L: Fn(&TextRegion, LineSpot) -> Option<(usize, usize)>,
    B: Fn(&TextRegion, LineSpot, Surroundings) -> u8,
    I: Fn(&Vec<Option<u8>>, usize, usize) -> Result<TensorOutput, VisionError>,
    S: Fn(&Vec<Single>) -> Single,
>(
    pipeline: OcrPipeline,
    pairs: Vec<(TextRegion, TextLine)>,
    image: Picture,
    infer: D,
    find: TextCalls<P, Q, K>,
    lines: LineCalls<E, L, B>,
    read: ReadCalls<I, S>,
) -> (r: (Vec<TextRegion>, Seq<Image>, Vec<TextLine>))
    requires
        pipeline.is_recognition(Ok(pairs), image, infer, find, lines, read),
    ensures
        ({
            let (regions, crops, texts) = r;
            &&& pipeline.detector.is_detection(Ok(regions), image, infer, find)
            &&& pairs.len() == regions.len()
            &&& forall|i: int| 0 <= i < pairs.len() ==> (#[trigger] pairs@[i]).0 == regions@[i]
            &&& regions.len() > 0 ==> {
                &&& crops.len() == regions.len()
                &&& texts.len() == regions.len()
                &&& pipeline.recognizer.are_lines(Ok(texts), crops, read)
                &&& forall|i: int|
                    0 <= i < pairs.len() ==> (#[trigger] pairs@[i]).1 == texts@[i] && is_cut_line(
                        crops[i],
                        image,
                        &pairs@[i].0,
                        &lines,
                    )
            }
        }),
{
    let result: Result<Vec<(TextRegion, TextLine)>, VisionError> = Ok(pairs);
    let found = choose|found: Result<Vec<TextRegion>, VisionError>| #[trigger]
        pipeline.detector.is_detection(found, image, infer, find) && match found {
            Err(e) => result is Err && result->Err_0 == e,
            Ok(regions) => pipeline.is_reading(result, image, regions@, lines, read),
        };
    let regions = found->Ok_0;
    if regions.len() == 0 {
        (regions, Seq::empty(), arbitrary())
    } else {
        let texts = choose|texts: Result<Vec<TextLine>, VisionError>| #[trigger]
            pipeline.recognizer.is_batch_reading(texts, image, regions@, lines, read) && match texts {
                Err(e) => result is Err && result->Err_0 == e,
                Ok(texts) => result is Ok && are_paired(result->Ok_0@, regions@, texts@),
            };
        let crops = choose|crops: Seq<Image>| #[trigger]
            OcrRecognizer::are_cut(crops, image, regions@, lines) && pipeline.recognizer.are_lines(texts, crops, read);
        let _ = lines_are_read_in_one_batch(pipeline.recognizer, texts->Ok_0, crops, read);
        assert forall|i: int| 0 <= i < pairs.len() implies (#[trigger] pairs@[i]).1 == texts->Ok_0@[i]
            && is_cut_line(crops[i], image, &pairs@[i].0, &lines) by {
            assert(is_cut_line(crops[i], image, &regions@[i], &lines));
        }
        (regions, crops, texts->Ok_0)
    }
}

/// A pipeline that is opened finds text with the first model and reads it with the second one,
/// each with a session of its own under the same parameters.
pub proof fn opened_pipeline_has_both_models(
    pipeline: OcrPipeline,
    det: ModelFile,
    rec: ModelFile,
    dict_path: Seq<char>,
    dict_content: Seq<char>,
    device: DeviceType,
    config: OnnxRuntimeConfig,
    env: Environment,
)
    requires
        OcrPipeline::is_opened(Ok(pipeline), det, rec, dict_path, dict_content, device, config, env),
    ensures
        pipeline.detector.base.model_path@ == det.path@ && det.exists && det.path@.len() > 0,
        pipeline.recognizer.base.model_path@ == rec.path@ && rec.exists && rec.path@.len() > 0,
        pipeline.detector.base.session.config == config,
        pipeline.recognizer.base.session.config == config,
{
}

} // verus!
