//! Reading the outputs of the plate models.

use vstd::prelude::*;

use crate::engines::priors::Prior;
use crate::error::{fails, ErrorKind, VisionError};
use crate::ieee::{Single, SINGLE_ZERO};
use crate::runtime::tensor::TensorOutput;
use crate::text::{contains_text, decimal, lowercase_text, names_text, occurs_in, push_decimal, push_names, push_shape,
    shape_text, texts, to_lowercase};

verus! {

// ---------------------------------------------------------------------------
// Finding an output
// ---------------------------------------------------------------------------

/// Whether the name of an output has one of the parts in it, without regard to case.
pub open spec fn is_named(output: TensorOutput, parts: Seq<Seq<char>>) -> bool {
    exists|k: int| 0 <= k < parts.len() && occurs_in(#[trigger] parts[k], lowercase_text(output.name@))
}

/// Whether the last dimension of an output is the given one. An output without
/// dimensions counts as having none.
pub open spec fn ends_with(output: TensorOutput, last_dim: int) -> bool {
    if output.shape.len() == 0 {
        last_dim == 0
    } else {
        output.dim(output.shape.len() - 1) == last_dim
    }
}

/// Whether `i` is the output that is looked for: the first with a fitting name, or, if
/// there is none, the first with the right last dimension.
pub open spec fn is_found(outputs: Seq<TensorOutput>, parts: Seq<Seq<char>>, last_dim: int, i: int) -> bool {
    &&& 0 <= i < outputs.len()
    &&& if is_named(outputs[i], parts) {
        forall|j: int| 0 <= j < i ==> !is_named(#[trigger] outputs[j], parts)
    } else {
        &&& forall|j: int| 0 <= j < outputs.len() ==> !is_named(#[trigger] outputs[j], parts)
        &&& ends_with(outputs[i], last_dim)
        &&& forall|j: int| 0 <= j < i ==> !ends_with(#[trigger] outputs[j], last_dim)
    }
}

/// The names of the outputs.
pub open spec fn output_names(outputs: Seq<TensorOutput>) -> Seq<Seq<char>> {
    outputs.map_values(|o: TensorOutput| o.name@)
}

/// The message on an output that is not there.
pub open spec fn missing_output(outputs: Seq<TensorOutput>, parts: Seq<Seq<char>>, last_dim: int) -> Seq<char> {
    "未找到 mnet 输出（候选名 "@ + names_text(parts) + "，末维 "@ + decimal(last_dim as nat) + "）；实际: "@ + names_text(
        output_names(outputs),
    )
}

/// Whether a text has one of the parts in it.
pub fn has_part(text: &str, parts: &Vec<String>) -> (r: bool)
    ensures
        r == exists|k: int| 0 <= k < parts.len() && occurs_in(#[trigger] texts(parts@)[k], text@),
{
    let mut k: usize = 0;
    while k < parts.len()
        invariant
            k <= parts.len(),
            forall|j: int| 0 <= j < k ==> !occurs_in(#[trigger] texts(parts@)[j], text@),
        decreases parts.len() - k,
    {
        if contains_text(text, parts[k].as_str()) {
            assert(texts(parts@)[k as int] == parts[k as int]@);
            return true;
        }
        assert(texts(parts@)[k as int] == parts[k as int]@);
        k += 1;
    }
    false
}

/// The output that is looked for, or the message that there is none.
pub open spec fn found_output(outputs: Seq<TensorOutput>, parts: Seq<Seq<char>>, last_dim: int) -> Result<
    int,
    Seq<char>,
> {
    if exists|i: int| is_found(outputs, parts, last_dim, i) {
        Ok(choose|i: int| is_found(outputs, parts, last_dim, i))
    } else {
        Err(missing_output(outputs, parts, last_dim))
    }
}

/// At most one output is the one looked for.
pub proof fn found_output_is_unique(outputs: Seq<TensorOutput>, parts: Seq<Seq<char>>, last_dim: int, i: int, j: int)
    requires
        is_found(outputs, parts, last_dim, i),
        is_found(outputs, parts, last_dim, j),
    ensures
        i == j,
{
}

/// Finds an output by its name, or by its last dimension.
pub fn find_output(outputs: &Vec<TensorOutput>, parts: &Vec<String>, last_dim: usize) -> (r: Result<usize, VisionError>)
    requires
        forall|i: int| 0 <= i < outputs.len() ==> (#[trigger] outputs[i]).wf(),
    ensures
        found_output(outputs@, texts(parts@), last_dim as int) is Ok ==> r is Ok && r->Ok_0 < outputs.len()
            && r->Ok_0 == found_output(outputs@, texts(parts@), last_dim as int)->Ok_0,
        found_output(outputs@, texts(parts@), last_dim as int) is Err ==> fails(
            r,
            ErrorKind::Inference,
            found_output(outputs@, texts(parts@), last_dim as int)->Err_0,
        ),
{
    let ghost names = texts(parts@);
    let mut i: usize = 0;
    while i < outputs.len()
        invariant
            i <= outputs.len(),
            names == texts(parts@),
            forall|j: int| 0 <= j < i ==> !is_named(#[trigger] outputs@[j], names),
        decreases outputs.len() - i,
    {
        let lower = to_lowercase(outputs[i].name.as_str());
        if has_part(lower.as_str(), parts) {
            assert(is_named(outputs@[i as int], names));
            proof {
                assert(is_found(outputs@, names, last_dim as int, i as int));
                let chosen = choose|k: int| is_found(outputs@, names, last_dim as int, k);
                found_output_is_unique(outputs@, names, last_dim as int, i as int, chosen);
            }
            return Ok(i);
        }
        assert(!is_named(outputs@[i as int], names));
        i += 1;
    }
    let mut i: usize = 0;
    while i < outputs.len()
        invariant
            i <= outputs.len(),
            names == texts(parts@),
            forall|j: int| 0 <= j < outputs.len() ==> (#[trigger] outputs[j]).wf(),
            forall|j: int| 0 <= j < outputs.len() ==> !is_named(#[trigger] outputs@[j], names),
            forall|j: int| 0 <= j < i ==> !ends_with(#[trigger] outputs@[j], last_dim as int),
        decreases outputs.len() - i,
    {
        let shape = &outputs[i].shape;
        let last: usize = if shape.len() == 0 {
            0
        } else {
            assert(outputs[i as int].wf());
            shape[shape.len() - 1] as usize
        };
        if last == last_dim {
            proof {
                assert(is_found(outputs@, names, last_dim as int, i as int));
                let chosen = choose|k: int| is_found(outputs@, names, last_dim as int, k);
                found_output_is_unique(outputs@, names, last_dim as int, i as int, chosen);
            }
            return Ok(i);
        }
        i += 1;
    }
    let mut message = String::from_str("未找到 mnet 输出（候选名 ");
    push_names(&mut message, parts);
    message.append("，末维 ");
    push_decimal(&mut message, last_dim as u64);
    message.append("）；实际: ");
    let mut actual: Vec<String> = Vec::new();
    let mut i: usize = 0;
    while i < outputs.len()
        invariant
            i <= outputs.len(),
            texts(actual@) == output_names(outputs@.take(i as int)),
        decreases outputs.len() - i,
    {
        let ghost before = actual@;
        actual.push(String::from_str(outputs[i].name.as_str()));
        assert(texts(actual@) =~= texts(before).push(outputs@[i as int].name@));
        assert(output_names(outputs@.take(i + 1)) =~= output_names(outputs@.take(i as int)).push(
            outputs@[i as int].name@,
        ));
        i += 1;
    }
    assert(outputs@.take(i as int) =~= outputs@);
    push_names(&mut message, &actual);
    Err(VisionError::inference(message))
}

// ---------------------------------------------------------------------------
// Outputs as matrices
// ---------------------------------------------------------------------------

/// A matrix of single-precision values, row by row.
#[derive(Debug)]
pub struct Matrix2D {
    pub rows: usize,
    pub cols: usize,
    pub data: Vec<Single>,
}

/// The number of rows and columns of an output that is read as a matrix with `hint`
/// columns, if it has a fitting number of dimensions.
pub open spec fn matrix_size(output: TensorOutput, hint: int) -> Option<(int, int)> {
    let n = output.shape.len();
    if n == 3 {
        Some((output.dim(1), output.dim(2)))
    } else if n == 2 {
        Some((output.dim(0), output.dim(1)))
    } else if n == 1 && hint > 0 && output.values().len() as int % hint == 0 {
        Some((output.values().len() as int / hint, hint))
    } else {
        None
    }
}

/// The rows, the columns and the values of an output that is read as a matrix with `hint`
/// columns, or the message on why it cannot be.
pub open spec fn matrix_of(output: TensorOutput, hint: int) -> Result<(int, int, Seq<Single>), Seq<char>> {
    if !(output.data is F32) {
        Err("output tensor is not f32"@)
    } else {
        match matrix_size(output, hint) {
            None => Err("mnet 车牌检测输出维度不支持: "@ + shape_text(output.shape@)),
            Some((rows, cols)) => if cols != hint {
                Err(
                    "mnet 车牌检测输出末维 "@ + decimal(cols as nat) + " 与期望 "@ + decimal(hint as nat) + " 不符"@,
                )
            } else if output.values().len() < rows * cols {
                Err(
                    "mnet 车牌检测输出元素数 "@ + decimal(output.values().len()) + " < "@ + decimal(rows as nat) + "x"@
                        + decimal(cols as nat),
                )
            } else {
                Ok((rows, cols, output.values().take(rows * cols)))
            },
        }
    }
}

impl View for Matrix2D {
    type V = (int, int, Seq<Single>);

    open spec fn view(&self) -> (int, int, Seq<Single>) {
        (self.rows as int, self.cols as int, self.data@)
    }
}

impl Matrix2D {
    /// Whether there is one value for each place.
    pub open spec fn wf(self) -> bool {
        self.data.len() == self.rows * self.cols
    }

    /// The value at a place.
    pub open spec fn at(self, r: int, c: int) -> Single {
        self.data[r * self.cols + c]
    }

    /// Reads an output as a matrix.
    pub fn from_output(output: &TensorOutput, cols_hint: usize) -> (r: Result<Matrix2D, VisionError>)
        requires
            output.wf(),
        ensures
            matrix_of(*output, cols_hint as int) is Ok ==> r is Ok && r->Ok_0.wf() && r->Ok_0.cols == cols_hint
                && r->Ok_0@ == matrix_of(*output, cols_hint as int)->Ok_0,
            matrix_of(*output, cols_hint as int) is Err ==> fails(
                r,
                ErrorKind::Inference,
                matrix_of(*output, cols_hint as int)->Err_0,
            ),
    {
        let flat = match output.as_f32() {
            Ok(flat) => flat,
            Err(e) => {
                return Err(e);
            },
        };
        let shape = &output.shape;
        let n = shape.len();
        let size: Option<(usize, usize)> = if n == 3 {
            Some((shape[1] as usize, shape[2] as usize))
        } else if n == 2 {
            Some((shape[0] as usize, shape[1] as usize))
        } else if n == 1 && cols_hint > 0 && flat.len() % cols_hint == 0 {
            Some((flat.len() / cols_hint, cols_hint))
        } else {
            None
        };
        let (rows, cols) = match size {
            Some(size) => size,
            None => {
                let mut message = String::from_str("mnet 车牌检测输出维度不支持: ");
                push_shape(&mut message, shape);
                return Err(VisionError::inference(message));
            },
        };
        if cols != cols_hint {
            let mut message = String::from_str("mnet 车牌检测输出末维 ");
            push_decimal(&mut message, cols as u64);
            message.append(" 与期望 ");
            push_decimal(&mut message, cols_hint as u64);
            message.append(" 不符");
            return Err(VisionError::inference(message));
        }
        let enough = match rows.checked_mul(cols) {
            Some(count) => flat.len() >= count,
            None => false,
        };
        if !enough {
            let mut message = String::from_str("mnet 车牌检测输出元素数 ");
            push_decimal(&mut message, flat.len() as u64);
            message.append(" < ");
            push_decimal(&mut message, rows as u64);
            message.append("x");
            push_decimal(&mut message, cols as u64);
            return Err(VisionError::inference(message));
        }
        let data = first_values(flat, rows * cols);
        Ok(Matrix2D { rows, cols, data })
    }

    /// The value at a place.
    pub fn get(&self, r: usize, c: usize) -> (v: Single)
        requires
            self.wf(),
            r < self.rows,
            c < self.cols,
        ensures
            v == self.at(r as int, c as int),
    {
        assert(0 <= r * self.cols && r * self.cols + c < self.rows * self.cols) by (nonlinear_arith)
            requires
                0 <= r < self.rows,
                0 <= c < self.cols,
        ;
        self.data[r * self.cols + c]
    }
}

/// The first values of a list.
fn first_values(values: &Vec<Single>, count: usize) -> (out: Vec<Single>)
    requires
        count <= values.len(),
    ensures
        out@ == values@.take(count as int),
{
    let mut out: Vec<Single> = Vec::new();
    let mut i: usize = 0;
    while i < count
        invariant
            i <= count <= values.len(),
            out@ == values@.take(i as int),
        decreases count - i,
    {
        out.push(values[i]);
        assert(out@ =~= values@.take(i + 1));
        i += 1;
    }
    out
}

// ---------------------------------------------------------------------------
// Scores
// ---------------------------------------------------------------------------

/// The positions whose score is not below the threshold, in order.
pub open spec fn passing(scores: Seq<Single>, threshold: Single) -> Seq<int>
    decreases scores.len(),
{
    if scores.len() == 0 {
        Seq::empty()
    } else if threshold.greater(scores.last()) {
        passing(scores.drop_last(), threshold)
    } else {
        passing(scores.drop_last(), threshold).push(scores.len() - 1)
    }
}

/// The passing positions are exactly those whose score is not below the threshold.
pub proof fn passing_is_exact(scores: Seq<Single>, threshold: Single, i: int)
    ensures
        passing(scores, threshold).contains(i) <==> 0 <= i < scores.len() && !threshold.greater(scores[i]),
    decreases scores.len(),
{
    if scores.len() > 0 {
        let shorter = scores.drop_last();
        let n = scores.len() - 1;
        passing_is_exact(shorter, threshold, i);
        let rest = passing(shorter, threshold);
        let all = passing(scores, threshold);
        if !threshold.greater(scores.last()) {
            if i == n {
                assert(all[rest.len() as int] == i);
            }
            if rest.contains(i) {
                let k = choose|k: int| 0 <= k < rest.len() && rest[k] == i;
                assert(all[k] == i);
            }
            if all.contains(i) {
                let k = choose|k: int| 0 <= k < all.len() && all[k] == i;
                if k < rest.len() {
                    assert(rest[k] == i);
                }
            }
        }
    }
}

// ---------------------------------------------------------------------------
// The anchor-based detector
// ---------------------------------------------------------------------------

/// A candidate of the anchor-based detector, not yet decoded.
#[derive(Debug, Clone, Copy)]
pub struct RawPlate {
    /// The anchor.
    pub prior: Prior,
    /// The box regression values.
    pub loc: [Single; 4],
    /// The regression values of the corners: top left, top right, bottom left, bottom right.
    pub corners: [[Single; 2]; 4],
    /// The confidence.
    pub score: Single,
}

/// The three outputs of the anchor-based detector.
#[derive(Debug)]
pub struct MnetOutputs {
    pub loc: Matrix2D,
    pub conf: Matrix2D,
    pub landms: Matrix2D,
}

impl MnetOutputs {
    /// Whether each box has a confidence and corners.
    pub open spec fn wf(self) -> bool {
        &&& self.loc.wf()
        &&& self.conf.wf()
        &&& self.landms.wf()
        &&& self.loc.cols == 4
        &&& self.conf.cols == 2
        &&& self.landms.cols == 8
        &&& self.conf.rows >= self.loc.rows
        &&& self.landms.rows >= self.loc.rows
    }

    /// The confidence of each box.
    pub open spec fn scores(self) -> Seq<Single> {
        Seq::new(self.loc.rows as nat, |i: int| self.conf.at(i, 1))
    }

    /// Whether these are the matrices of the given outputs.
    pub open spec fn is_read_from(self, outputs: Seq<TensorOutput>) -> bool {
        &&& self.wf()
        &&& self.loc@ == found_matrix(outputs, loc_names(), 4)->Ok_0
        &&& self.conf@ == found_matrix(outputs, conf_names(), 2)->Ok_0
        &&& self.landms@ == found_matrix(outputs, landms_names(), 8)->Ok_0
    }

    /// Whether each box that passes the threshold is one of the first `count`.
    pub open spec fn has_anchors(self, count: int, threshold: Single) -> bool {
        forall|i: int| count <= i < self.scores().len() ==> threshold.greater(#[trigger] self.scores()[i])
    }

    /// Whether each box that passes the threshold is one of the first `count`.
    pub fn fits_anchors(&self, count: usize, threshold: Single) -> (r: bool)
        requires
            self.wf(),
        ensures
            r == self.has_anchors(count as int, threshold),
    {
        let mut i: usize = count;
        while i < self.loc.rows
            invariant
                self.wf(),
                count <= i,
                forall|k: int| count <= k < i && k < self.loc.rows ==> threshold.greater(#[trigger] self.scores()[k]),
            decreases self.loc.rows - i,
        {
            let score = self.conf.get(i, 1);
            assert(self.scores()[i as int] == score);
            if !score.lt(threshold) {
                return false;
            }
            i += 1;
        }
        true
    }
}

/// Whether a candidate is that of an anchor. The model gives the corners in the order
/// bottom right, bottom left, top left, top right.
pub open spec fn is_raw_plate(p: RawPlate, outputs: MnetOutputs, priors: Seq<Prior>, i: int) -> bool {
    &&& p.prior == priors[i]
    &&& p.score == outputs.conf.at(i, 1)
    &&& forall|k: int| 0 <= k < 4 ==> #[trigger] p.loc@[k] == outputs.loc.at(i, k)
    &&& forall|k: int| 0 <= k < 2 ==> #[trigger] p.corners@[0]@[k] == outputs.landms.at(i, 4 + k)
    &&& forall|k: int| 0 <= k < 2 ==> #[trigger] p.corners@[1]@[k] == outputs.landms.at(i, 6 + k)
    &&& forall|k: int| 0 <= k < 2 ==> #[trigger] p.corners@[2]@[k] == outputs.landms.at(i, 2 + k)
    &&& forall|k: int| 0 <= k < 2 ==> #[trigger] p.corners@[3]@[k] == outputs.landms.at(i, k)
}

/// The candidates of the anchors whose confidence is not below the threshold.
pub fn mnet_candidates(outputs: &MnetOutputs, priors: &Vec<Prior>, threshold: Single) -> (candidates: Vec<RawPlate>)
    requires
        outputs.wf(),
        outputs.has_anchors(priors.len() as int, threshold),
    ensures
        candidates.len() == passing(outputs.scores(), threshold).len(),
        forall|k: int|
            0 <= k < candidates.len() ==> is_raw_plate(
                #[trigger] candidates[k],
                *outputs,
                priors@,
                passing(outputs.scores(), threshold)[k],
            ),
{
    let ghost scores = outputs.scores();
    let mut candidates: Vec<RawPlate> = Vec::new();
    let mut i: usize = 0;
    while i < outputs.loc.rows
        invariant
            outputs.wf(),
            outputs.has_anchors(priors.len() as int, threshold),
            i <= outputs.loc.rows,
            scores == outputs.scores(),
            candidates.len() == passing(scores.take(i as int), threshold).len(),
            forall|k: int|
                0 <= k < candidates.len() ==> is_raw_plate(
                    #[trigger] candidates[k],
                    *outputs,
                    priors@,
                    passing(scores.take(i as int), threshold)[k],
                ),
        decreases outputs.loc.rows - i,
    {
        let score = outputs.conf.get(i, 1);
        proof {
            assert(scores.take(i + 1).drop_last() =~= scores.take(i as int));
            assert(scores.take(i + 1).last() == score);
        }
        assert(scores[i as int] == score);
        if !score.lt(threshold) {
            let (loc, landms) = (&outputs.loc, &outputs.landms);
            let pt0 = [landms.get(i, 0), landms.get(i, 1)];
            let pt1 = [landms.get(i, 2), landms.get(i, 3)];
            let pt2 = [landms.get(i, 4), landms.get(i, 5)];
            let pt3 = [landms.get(i, 6), landms.get(i, 7)];
            let plate = RawPlate {
                prior: priors[i],
                loc: [loc.get(i, 0), loc.get(i, 1), loc.get(i, 2), loc.get(i, 3)],
                corners: [pt2, pt3, pt1, pt0],
                score,
            };
            assert(is_raw_plate(plate, *outputs, priors@, i as int));
            candidates.push(plate);
        }
        i += 1;
    }
    assert(scores.take(i as int) =~= scores);
    candidates
}

/// The parts of a name, as strings.
fn strings(parts: &[&'static str]) -> (r: Vec<String>)
    ensures
        r.len() == parts.len(),
        forall|i: int| 0 <= i < parts.len() ==> #[trigger] texts(r@)[i] == parts@[i]@,
{
    let mut r: Vec<String> = Vec::new();
    let mut i: usize = 0;
    while i < parts.len()
        invariant
            i <= parts.len(),
            r.len() == i,
            forall|k: int| 0 <= k < i ==> #[trigger] r@[k]@ == parts@[k]@,
        decreases parts.len() - i,
    {
        r.push(String::from_str(parts[i]));
        i += 1;
    }
    r
}

/// The name parts of the three outputs.
pub open spec fn loc_names() -> Seq<Seq<char>> {
    seq!["loc"@]
}

pub open spec fn conf_names() -> Seq<Seq<char>> {
    seq!["conf"@, "scores"@]
}

pub open spec fn landms_names() -> Seq<Seq<char>> {
    seq!["landms"@, "landm"@, "keypoints"@]
}

/// The matrix of the output that is looked for.
pub open spec fn found_matrix(outputs: Seq<TensorOutput>, parts: Seq<Seq<char>>, cols: int) -> Result<
    (int, int, Seq<Single>),
    Seq<char>,
> {
    matrix_of(outputs[found_output(outputs, parts, cols)->Ok_0], cols)
}

/// The message on the first thing that is wrong with the outputs of the anchor-based
/// detector, if anything is: an output that is not there, then one that is no matrix,
/// then a box without a confidence or corners.
pub open spec fn mnet_complaint(outputs: Seq<TensorOutput>) -> Option<Seq<char>> {
    let loc = found_matrix(outputs, loc_names(), 4);
    let conf = found_matrix(outputs, conf_names(), 2);
    let landms = found_matrix(outputs, landms_names(), 8);
    if found_output(outputs, loc_names(), 4) is Err {
        Some(found_output(outputs, loc_names(), 4)->Err_0)
    } else if found_output(outputs, conf_names(), 2) is Err {
        Some(found_output(outputs, conf_names(), 2)->Err_0)
    } else if found_output(outputs, landms_names(), 8) is Err {
        Some(found_output(outputs, landms_names(), 8)->Err_0)
    } else if loc is Err {
        Some(loc->Err_0)
    } else if conf is Err {
        Some(conf->Err_0)
    } else if landms is Err {
        Some(landms->Err_0)
    } else if conf->Ok_0.0 < loc->Ok_0.0 || landms->Ok_0.0 < loc->Ok_0.0 {
        Some(
            "mnet 输出行数不一致: loc="@ + decimal(loc->Ok_0.0 as nat) + ", conf="@ + decimal(conf->Ok_0.0 as nat)
                + ", landms="@ + decimal(landms->Ok_0.0 as nat),
        )
    } else {
        None
    }
}

/// Takes the three outputs of the anchor-based detector.
pub fn read_mnet(outputs: &Vec<TensorOutput>) -> (r: Result<MnetOutputs, VisionError>)
    requires
        forall|i: int| 0 <= i < outputs.len() ==> (#[trigger] outputs[i]).wf(),
    ensures
        mnet_complaint(outputs@) is Some ==> fails(r, ErrorKind::Inference, mnet_complaint(outputs@)->0),
        mnet_complaint(outputs@) is None ==> r is Ok && r->Ok_0.is_read_from(outputs@),
{
    let loc_parts = strings(&["loc"]);
    let conf_parts = strings(&["conf", "scores"]);
    let landms_parts = strings(&["landms", "landm", "keypoints"]);
    assert(texts(loc_parts@) =~= loc_names());
    assert(texts(conf_parts@) =~= conf_names());
    assert(texts(landms_parts@) =~= landms_names());
    let loc = match find_output(outputs, &loc_parts, 4) {
        Ok(i) => i,
        Err(e) => {
            return Err(e);
        },
    };
    let conf = match find_output(outputs, &conf_parts, 2) {
        Ok(i) => i,
        Err(e) => {
            return Err(e);
        },
    };
    let landms = match find_output(outputs, &landms_parts, 8) {
        Ok(i) => i,
        Err(e) => {
            return Err(e);
        },
    };
    let loc = match Matrix2D::from_output(&outputs[loc], 4) {
        Ok(m) => m,
        Err(e) => {
            return Err(e);
        },
    };
    let conf = match Matrix2D::from_output(&outputs[conf], 2) {
        Ok(m) => m,
        Err(e) => {
            return Err(e);
        },
    };
    let landms = match Matrix2D::from_output(&outputs[landms], 8) {
        Ok(m) => m,
        Err(e) => {
            return Err(e);
        },
    };
    if conf.rows < loc.rows || landms.rows < loc.rows {
        let mut message = String::from_str("mnet 输出行数不一致: loc=");
        push_decimal(&mut message, loc.rows as u64);
        message.append(", conf=");
        push_decimal(&mut message, conf.rows as u64);
        message.append(", landms=");
        push_decimal(&mut message, landms.rows as u64);
        return Err(VisionError::inference(message));
    }
    Ok(MnetOutputs { loc, conf, landms })
}

// ---------------------------------------------------------------------------
// The grid-based detector
// ---------------------------------------------------------------------------

/// A candidate of the grid-based detector, not yet decoded.
#[derive(Debug, Clone, Copy)]
pub struct RawBox {
    /// Four coordinates on the detector's input.
    pub coords: [Single; 4],
    /// Whether the coordinates are a centre and a size; else they are two corners.
    pub centered: bool,
    /// The confidence.
    pub score: Single,
}

/// Whether `i` is the last of the outputs with the most elements.
pub open spec fn is_largest(outputs: Seq<TensorOutput>, i: int) -> bool {
    &&& 0 <= i < outputs.len()
    &&& forall|j: int| 0 <= j < outputs.len() ==> (#[trigger] outputs[j]).count() <= outputs[i].count()
    &&& forall|j: int| i < j < outputs.len() ==> (#[trigger] outputs[j]).count() < outputs[i].count()
}

/// The last of the outputs with the most elements.
fn largest_output(outputs: &Vec<TensorOutput>) -> (r: Option<usize>)
    ensures
        r is None <==> outputs.len() == 0,
        r is Some ==> is_largest(outputs@, r->0 as int),
{
    if outputs.len() == 0 {
        return None;
    }
    let mut best: usize = 0;
    let mut i: usize = 1;
    while i < outputs.len()
        invariant
            best < i <= outputs.len(),
            forall|j: int| 0 <= j < i ==> (#[trigger] outputs@[j]).count() <= outputs@[best as int].count(),
            forall|j: int| best < j < i ==> (#[trigger] outputs@[j]).count() < outputs@[best as int].count(),
        decreases outputs.len() - i,
    {
        if outputs[i].element_count() >= outputs[best].element_count() {
            best = i;
        }
        i += 1;
    }
    Some(best)
}

/// Whether the model has chosen among its boxes itself: one row per box.
pub open spec fn is_end2end(output: TensorOutput) -> bool {
    output.shape.len() == 3 && 100 <= output.dim(1) <= 400 && 4 <= output.dim(2) <= 100
}

/// The number of rows whose six values are all there.
pub open spec fn full_rows(len: int, rows: int, cols: int) -> int {
    if len < 6 {
        0
    } else if (len - 6) / cols + 1 < rows {
        (len - 6) / cols + 1
    } else {
        rows
    }
}

/// The confidence of each row.
pub open spec fn row_scores(flat: Seq<Single>, rows: int, cols: int) -> Seq<Single> {
    Seq::new(full_rows(flat.len() as int, rows, cols) as nat, |i: int| flat[i * cols + 4])
}

/// The greatest of zero and the class scores of a column, up to channel `c`.
pub open spec fn class_score(flat: Seq<Single>, anchors: int, i: int, c: int) -> Single
    decreases c,
{
    if c <= 4 {
        Single { bits: SINGLE_ZERO }
    } else {
        let best = class_score(flat, anchors, i, c - 1);
        let s = flat[(c - 1) * anchors + i];
        if s.greater(best) {
            s
        } else {
            best
        }
    }
}

/// The confidence of each column.
pub open spec fn column_scores(flat: Seq<Single>, channels: int, anchors: int) -> Seq<Single> {
    Seq::new(anchors as nat, |i: int| class_score(flat, anchors, i, channels))
}

/// The channels and columns of an output without a choice of its own.
pub open spec fn grid_size(output: TensorOutput) -> Option<(int, int)> {
    if output.shape.len() == 3 {
        Some((output.dim(1), output.dim(2)))
    } else if output.shape.len() == 2 {
        Some((output.dim(0), output.dim(1)))
    } else {
        None
    }
}

/// The message on what is wrong with the output, if anything is.
pub open spec fn yolo_complaint(output: TensorOutput) -> Option<Seq<char>> {
    if !(output.data is F32) {
        Some("output tensor is not f32"@)
    } else if is_end2end(output) {
        None
    } else if grid_size(output) is None {
        Some("YOLO 车牌检测输出维度不支持: "@ + shape_text(output.shape@))
    } else if (grid_size(output)->0).0 < 5 {
        Some("YOLO 车牌检测输出 channels="@ + decimal((grid_size(output)->0).0 as nat) + " < 5（应为 4+nc, nc=1）"@)
    } else {
        None
    }
}

/// Whether the output has all the values that its size says.
pub open spec fn holds_grid(output: TensorOutput) -> bool {
    yolo_complaint(output) is None && !is_end2end(output) ==> (grid_size(output)->0).0 * (grid_size(output)->0).1
        <= output.values().len()
}

/// Whether the candidates are those of an output whose confidence is not below the
/// threshold.
pub open spec fn are_raw_boxes(boxes: Seq<RawBox>, output: TensorOutput, threshold: Single) -> bool {
    let flat = output.values();
    if is_end2end(output) {
        let (rows, cols) = (output.dim(1), output.dim(2));
        let rows_kept = passing(row_scores(flat, rows, cols), threshold);
        &&& boxes.len() == rows_kept.len()
        &&& forall|k: int| 0 <= k < boxes.len() ==> is_row_box(#[trigger] boxes[k], flat, cols, rows_kept[k])
    } else {
        let (channels, anchors) = grid_size(output)->0;
        let columns = passing(column_scores(flat, channels, anchors), threshold);
        &&& boxes.len() == columns.len()
        &&& forall|k: int|
            0 <= k < boxes.len() ==> is_column_box(#[trigger] boxes[k], flat, channels, anchors, columns[k])
    }
}

/// The candidates pass the threshold.
pub(crate) proof fn lemma_raw_boxes_pass(boxes: Seq<RawBox>, output: TensorOutput, threshold: Single, k: int)
    requires
        are_raw_boxes(boxes, output, threshold),
        0 <= k < boxes.len(),
    ensures
        !threshold.greater(boxes[k].score),
{
    let flat = output.values();
    let scores = if is_end2end(output) {
        row_scores(flat, output.dim(1), output.dim(2))
    } else {
        column_scores(flat, (grid_size(output)->0).0, (grid_size(output)->0).1)
    };
    let i = passing(scores, threshold)[k];
    assert(passing(scores, threshold).contains(i));
    passing_is_exact(scores, threshold, i);
    assert(boxes[k].score == scores[i]);
}

/// Whether a candidate is that of a row.
pub open spec fn is_row_box(b: RawBox, flat: Seq<Single>, cols: int, i: int) -> bool {
    &&& !b.centered
    &&& b.score == flat[i * cols + 4]
    &&& forall|k: int| 0 <= k < 4 ==> #[trigger] b.coords@[k] == flat[i * cols + k]
}

/// Whether a candidate is that of a column.
pub open spec fn is_column_box(b: RawBox, flat: Seq<Single>, channels: int, anchors: int, i: int) -> bool {
    &&& b.centered
    &&& b.score == class_score(flat, anchors, i, channels)
    &&& forall|k: int| 0 <= k < 4 ==> #[trigger] b.coords@[k] == flat[k * anchors + i]
}

fn row_boxes(flat: &Vec<Single>, rows: usize, cols: usize, threshold: Single) -> (boxes: Vec<RawBox>)
    requires
        rows <= 400,
        4 <= cols <= 100,
    ensures
        boxes.len() == passing(row_scores(flat@, rows as int, cols as int), threshold).len(),
        forall|k: int|
            0 <= k < boxes.len() ==> is_row_box(
                #[trigger] boxes[k],
                flat@,
                cols as int,
                passing(row_scores(flat@, rows as int, cols as int), threshold)[k],
            ),
{
    let ghost scores = row_scores(flat@, rows as int, cols as int);
    let ghost full = full_rows(flat.len() as int, rows as int, cols as int);
    let mut boxes: Vec<RawBox> = Vec::new();
    let mut i: usize = 0;
    proof {
        if flat.len() >= 6 {
            vstd::arithmetic::div_mod::lemma_div_pos_is_pos(flat.len() - 6, cols as int);
        }
    }
    while i < rows && i * cols + 5 < flat.len()
        invariant
            rows <= 400,
            4 <= cols <= 100,
            i <= full,
            full == full_rows(flat.len() as int, rows as int, cols as int),
            full <= rows,
            i * cols <= 400 * 100,
            scores == row_scores(flat@, rows as int, cols as int),
            boxes.len() == passing(scores.take(i as int), threshold).len(),
            forall|k: int|
                0 <= k < boxes.len() ==> is_row_box(
                    #[trigger] boxes[k],
                    flat@,
                    cols as int,
                    passing(scores.take(i as int), threshold)[k],
                ),
        decreases rows - i,
    {
        proof {
            lemma_full_row(flat.len() as int, rows as int, cols as int, i as int);
            assert((i + 1) * cols == i * cols + cols && (i + 1) * cols <= 400 * 100) by (nonlinear_arith)
                requires
                    i + 1 <= 400,
                    0 <= cols <= 100,
            ;
            assert(scores.take(i + 1).drop_last() =~= scores.take(i as int));
        }
        let off = i * cols;
        let score = flat[off + 4];
        assert(scores.take(i + 1).last() == score);
        if !score.lt(threshold) {
            let found = RawBox {
                coords: [flat[off], flat[off + 1], flat[off + 2], flat[off + 3]],
                centered: false,
                score,
            };
            assert(is_row_box(found, flat@, cols as int, i as int));
            boxes.push(found);
        }
        i += 1;
    }
    proof {
        if i < full {
            lemma_full_row(flat.len() as int, rows as int, cols as int, i as int);
        }
        assert(scores.take(i as int) =~= scores);
    }
    boxes
}

/// A row is full if and only if its last value is there.
proof fn lemma_full_row(len: int, rows: int, cols: int, i: int)
    requires
        0 <= i < rows,
        cols > 0,
        len >= 0,
    ensures
        i < full_rows(len, rows, cols) <==> i * cols + 5 < len,
{
    if len >= 6 {
        let q = (len - 6) / cols;
        let r = (len - 6) % cols;
        vstd::arithmetic::div_mod::lemma_fundamental_div_mod(len - 6, cols);
        vstd::arithmetic::div_mod::lemma_mod_bound(len - 6, cols);
        assert(i <= q <==> i * cols <= len - 6) by (nonlinear_arith)
            requires
                len - 6 == cols * q + r,
                0 <= r < cols,
        ;
    } else {
        assert(i * cols >= 0) by (nonlinear_arith)
            requires
                i >= 0,
                cols > 0,
        ;
    }
}

fn best_class_score(flat: &Vec<Single>, channels: usize, anchors: usize, i: usize) -> (best: Single)
    requires
        channels >= 5,
        i < anchors,
        channels * anchors <= flat.len(),
    ensures
        best == class_score(flat@, anchors as int, i as int, channels as int),
{
    let mut best = Single { bits: SINGLE_ZERO };
    let mut c: usize = 4;
    while c < channels
        invariant
            4 <= c <= channels,
            i < anchors,
            channels * anchors <= flat.len(),
            best == class_score(flat@, anchors as int, i as int, c as int),
        decreases channels - c,
    {
        assert(0 <= c * anchors && c * anchors + i < channels * anchors) by (nonlinear_arith)
            requires
                0 <= c < channels,
                0 <= i < anchors,
        ;
        let s = flat[c * anchors + i];
        if s.gt(best) {
            best = s;
        }
        c += 1;
    }
    best
}

fn column_boxes(flat: &Vec<Single>, channels: usize, anchors: usize, threshold: Single) -> (boxes: Vec<RawBox>)
    requires
        channels >= 5,
        channels * anchors <= flat.len(),
    ensures
        boxes.len() == passing(column_scores(flat@, channels as int, anchors as int), threshold).len(),
        forall|k: int|
            0 <= k < boxes.len() ==> is_column_box(
                #[trigger] boxes[k],
                flat@,
                channels as int,
                anchors as int,
                passing(column_scores(flat@, channels as int, anchors as int), threshold)[k],
            ),
{
    let ghost scores = column_scores(flat@, channels as int, anchors as int);
    let mut boxes: Vec<RawBox> = Vec::new();
    let mut i: usize = 0;
    while i < anchors
        invariant
            channels >= 5,
            channels * anchors <= flat.len(),
            i <= anchors,
            scores == column_scores(flat@, channels as int, anchors as int),
            boxes.len() == passing(scores.take(i as int), threshold).len(),
            forall|k: int|
                0 <= k < boxes.len() ==> is_column_box(
                    #[trigger] boxes[k],
                    flat@,
                    channels as int,
                    anchors as int,
                    passing(scores.take(i as int), threshold)[k],
                ),
        decreases anchors - i,
    {
        let best = best_class_score(flat, channels, anchors, i);
        proof {
            assert(scores.take(i + 1).drop_last() =~= scores.take(i as int));
            assert(scores.take(i + 1).last() == best);
            assert(3 * anchors + i < channels * anchors) by (nonlinear_arith)
                requires
                    channels >= 5,
                    0 <= i < anchors,
            ;
        }
        if !best.lt(threshold) {
            let found = RawBox {
                coords: [flat[i], flat[anchors + i], flat[2 * anchors + i], flat[3 * anchors + i]],
                centered: true,
                score: best,
            };
            proof {
                assert(0 * anchors == 0 && 1 * anchors == anchors) by (nonlinear_arith);
                assert(found.coords@[0] == flat@[0 * anchors + i]);
                assert(found.coords@[1] == flat@[1 * anchors + i]);
                assert(found.coords@[2] == flat@[2 * anchors + i]);
                assert(found.coords@[3] == flat@[3 * anchors + i]);
                assert(is_column_box(found, flat@, channels as int, anchors as int, i as int));
            }
            boxes.push(found);
        }
        i += 1;
    }
    assert(scores.take(i as int) =~= scores);
    boxes
}

/// Whether the outputs of the grid-based detector can be read.
pub open spec fn yolo_readable(outputs: Seq<TensorOutput>) -> bool {
    forall|i: int| is_largest(outputs, i) ==> holds_grid(#[trigger] outputs[i])
}

/// Whether the outputs of the grid-based detector can be read.
pub fn can_read_yolo(outputs: &Vec<TensorOutput>) -> (r: bool)
    requires
        forall|i: int| 0 <= i < outputs.len() ==> (#[trigger] outputs[i]).wf(),
    ensures
        r == yolo_readable(outputs@),
{
    let i = match largest_output(outputs) {
        Some(i) => i,
        None => {
            return true;
        },
    };
    proof {
        assert forall|j: int| #[trigger] is_largest(outputs@, j) implies j == i by {
            assert(outputs@[j].count() <= outputs@[i as int].count());
            assert(outputs@[i as int].count() <= outputs@[j].count());
        }
        assert(yolo_readable(outputs@) ==> holds_grid(outputs@[i as int]));
    }
    let output = &outputs[i];
    let flat = match output.as_f32() {
        Ok(flat) => flat,
        Err(_) => {
            return true;
        },
    };
    let shape = &output.shape;
    let n = shape.len();
    if n == 3 && 100 <= shape[1] && shape[1] <= 400 && 4 <= shape[2] && shape[2] <= 100 {
        return true;
    }
    let (channels, anchors): (usize, usize) = if n == 3 {
        (shape[1] as usize, shape[2] as usize)
    } else if n == 2 {
        (shape[0] as usize, shape[1] as usize)
    } else {
        return true;
    };
    if channels < 5 {
        return true;
    }
    match channels.checked_mul(anchors) {
        Some(count) => count <= flat.len(),
        None => false,
    }
}

/// What reading the outputs of the grid-based detector gives.
pub open spec fn is_yolo_reading(
    r: Result<Vec<RawBox>, VisionError>,
    outputs: Seq<TensorOutput>,
    threshold: Single,
) -> bool {
    if outputs.len() == 0 {
        fails(r, ErrorKind::Inference, "YOLO 车牌检测模型无输出"@)
    } else {
        exists|i: int| #[trigger]
            is_largest(outputs, i) && if yolo_complaint(outputs[i]) is Some {
                fails(r, ErrorKind::Inference, yolo_complaint(outputs[i])->0)
            } else {
                r is Ok && are_raw_boxes(r->Ok_0@, outputs[i], threshold)
            }
    }
}

/// The candidates of the largest output whose confidence is not below the threshold.
pub fn yolo_candidates(outputs: &Vec<TensorOutput>, threshold: Single) -> (r: Result<Vec<RawBox>, VisionError>)
    requires
        forall|i: int| 0 <= i < outputs.len() ==> (#[trigger] outputs[i]).wf(),
        yolo_readable(outputs@),
    ensures
        is_yolo_reading(r, outputs@, threshold),
{
    let i = match largest_output(outputs) {
        Some(i) => i,
        None => {
            return Err(VisionError::inference(String::from_str("YOLO 车牌检测模型无输出")));
        },
    };
    let output = &outputs[i];
    assert(is_largest(outputs@, i as int));
    assert(holds_grid(outputs@[i as int]));
    let flat = match output.as_f32() {
        Ok(flat) => flat,
        Err(e) => {
            return Err(e);
        },
    };
    let shape = &output.shape;
    let n = shape.len();
    if n == 3 && 100 <= shape[1] && shape[1] <= 400 && 4 <= shape[2] && shape[2] <= 100 {
        return Ok(row_boxes(flat, shape[1] as usize, shape[2] as usize, threshold));
    }
    let (channels, anchors) = if n == 3 {
        (shape[1] as usize, shape[2] as usize)
    } else if n == 2 {
        (shape[0] as usize, shape[1] as usize)
    } else {
        let mut message = String::from_str("YOLO 车牌检测输出维度不支持: ");
        push_shape(&mut message, shape);
        return Err(VisionError::inference(message));
    };
    if channels < 5 {
        let mut message = String::from_str("YOLO 车牌检测输出 channels=");
        push_decimal(&mut message, channels as u64);
        message.append(" < 5（应为 4+nc, nc=1）");
        return Err(VisionError::inference(message));
    }
    Ok(column_boxes(flat, channels, anchors, threshold))
}

// ---------------------------------------------------------------------------
// What candidates are
// ---------------------------------------------------------------------------

/// Each corner of a candidate is one point of the model's output, which lists its four points
/// one after the other, the column of each before its row: the third point is the top left
/// corner, the fourth the top right one, the second the bottom left one, and the first the
/// bottom right one.
pub proof fn corners_are_points_of_the_model(p: RawPlate, outputs: MnetOutputs, priors: Seq<Prior>, i: int)
    requires
        outputs.wf(),
        0 <= i < outputs.loc.rows,
        is_raw_plate(p, outputs, priors, i),
    ensures
        p.corners@[0]@[0] == outputs.landms.data@[8 * i + 4] && p.corners@[0]@[1] == outputs.landms.data@[8 * i + 5],
        p.corners@[1]@[0] == outputs.landms.data@[8 * i + 6] && p.corners@[1]@[1] == outputs.landms.data@[8 * i + 7],
        p.corners@[2]@[0] == outputs.landms.data@[8 * i + 2] && p.corners@[2]@[1] == outputs.landms.data@[8 * i + 3],
        p.corners@[3]@[0] == outputs.landms.data@[8 * i] && p.corners@[3]@[1] == outputs.landms.data@[8 * i + 1],
{
}

/// If the model's points are those of an upright rectangle, from its bottom right corner on
/// clockwise, then the top corners of the candidate lie above its bottom corners, and the left
/// ones to the left of the right ones.
pub proof fn upright_plates_stay_upright(
    p: RawPlate,
    outputs: MnetOutputs,
    priors: Seq<Prior>,
    i: int,
    left: Single,
    top: Single,
    right: Single,
    bottom: Single,
)
    requires
        outputs.wf(),
        0 <= i < outputs.loc.rows,
        is_raw_plate(p, outputs, priors, i),
        right.greater(left),
        bottom.greater(top),
        outputs.landms.data@.subrange(8 * i, 8 * i + 8) == seq![right, bottom, left, bottom, left, top, right, top],
    ensures
        p.corners@[0]@ == seq![left, top],
        p.corners@[1]@ == seq![right, top],
        p.corners@[2]@ == seq![left, bottom],
        p.corners@[3]@ == seq![right, bottom],
        p.corners@[2]@[1].greater(p.corners@[0]@[1]) && p.corners@[3]@[1].greater(p.corners@[1]@[1]),
        p.corners@[1]@[0].greater(p.corners@[0]@[0]) && p.corners@[3]@[0].greater(p.corners@[2]@[0]),
{
    let row = outputs.landms.data@.subrange(8 * i, 8 * i + 8);
    assert forall|k: int| 0 <= k < 8 implies #[trigger] row[k] == outputs.landms.data@[8 * i + k] by {}
    corners_are_points_of_the_model(p, outputs, priors, i);
    assert(row[0] == right && row[1] == bottom && row[2] == left && row[3] == bottom);
    assert(row[4] == left && row[5] == top && row[6] == right && row[7] == top);
    assert(p.corners@[0]@ =~= seq![left, top]);
    assert(p.corners@[1]@ =~= seq![right, top]);
    assert(p.corners@[2]@ =~= seq![left, bottom]);
    assert(p.corners@[3]@ =~= seq![right, bottom]);
}

/// A candidate has the four box values of its row, the anchor of its row, and as its confidence
/// the second of the two values of its row.
pub proof fn candidates_belong_to_their_anchor(p: RawPlate, outputs: MnetOutputs, priors: Seq<Prior>, i: int)
    requires
        outputs.wf(),
        0 <= i < outputs.loc.rows,
        is_raw_plate(p, outputs, priors, i),
    ensures
        p.prior == priors[i],
        p.score == outputs.conf.data@[2 * i + 1],
        p.loc@ == outputs.loc.data@.subrange(4 * i, 4 * i + 4),
{
    assert(p.loc@ =~= outputs.loc.data@.subrange(4 * i, 4 * i + 4)) by {
        assert forall|k: int| 0 <= k < 4 implies p.loc@[k] == outputs.loc.data@[4 * i + k] by {}
    }
}

/// The positions that pass a threshold come in ascending order.
pub proof fn passing_positions_ascend(scores: Seq<Single>, threshold: Single, i: int, j: int)
    requires
        0 <= i < j < passing(scores, threshold).len(),
    ensures
        0 <= passing(scores, threshold)[i] < passing(scores, threshold)[j] < scores.len(),
    decreases scores.len(),
{
    let shorter = passing(scores.drop_last(), threshold);
    if j < shorter.len() {
        passing_positions_ascend(scores.drop_last(), threshold, i, j);
    } else {
        assert(shorter.contains(shorter[i]));
        passing_is_exact(scores.drop_last(), threshold, shorter[i]);
    }
}

/// Every anchor whose confidence is not below the threshold gives a candidate, no other one
/// does, and the candidates stand in the order of their anchors.
pub proof fn candidates_are_those_of_sure_anchors(
    candidates: Seq<RawPlate>,
    outputs: MnetOutputs,
    priors: Seq<Prior>,
    threshold: Single,
) -> (at: Seq<int>)
    requires
        outputs.wf(),
        candidates.len() == passing(outputs.scores(), threshold).len(),
        forall|k: int|
            0 <= k < candidates.len() ==> is_raw_plate(
                #[trigger] candidates[k],
                outputs,
                priors,
                passing(outputs.scores(), threshold)[k],
            ),
    ensures
        at.len() == candidates.len(),
        forall|k: int|
            0 <= k < at.len() ==> 0 <= #[trigger] at[k] < outputs.loc.rows && !threshold.greater(
                outputs.conf.data@[2 * at[k] + 1],
            ) && candidates[k].prior == priors[at[k]] && candidates[k].score == outputs.conf.data@[2 * at[k] + 1],
        forall|i: int, j: int| 0 <= i < j < at.len() ==> #[trigger] at[i] < #[trigger] at[j],
        forall|i: int|
            0 <= i < outputs.loc.rows && !threshold.greater(#[trigger] outputs.conf.data@[2 * i + 1]) ==> at.contains(
                i,
            ),
{
    let scores = outputs.scores();
    let at = passing(scores, threshold);
    assert forall|k: int| 0 <= k < at.len() implies 0 <= #[trigger] at[k] < outputs.loc.rows && !threshold.greater(
        outputs.conf.data@[2 * at[k] + 1],
    ) && candidates[k].prior == priors[at[k]] && candidates[k].score == outputs.conf.data@[2 * at[k] + 1] by {
        assert(at.contains(at[k]));
        passing_is_exact(scores, threshold, at[k]);
        candidates_belong_to_their_anchor(candidates[k], outputs, priors, at[k]);
    }
    assert forall|i: int, j: int| 0 <= i < j < at.len() implies #[trigger] at[i] < #[trigger] at[j] by {
        passing_positions_ascend(scores, threshold, i, j);
    }
    assert forall|i: int|
        0 <= i < outputs.loc.rows && !threshold.greater(#[trigger] outputs.conf.data@[2 * i + 1]) implies at.contains(
        i,
    ) by {
        passing_is_exact(scores, threshold, i);
        assert(scores[i] == outputs.conf.at(i, 1));
    }
    at
}

/// A matrix that is read from an output has its values row by row, as they stand in the output.
pub proof fn matrices_are_read_row_by_row(m: Matrix2D, output: TensorOutput, hint: int, r: int, c: int)
    requires
        output.wf(),
        matrix_of(output, hint) is Ok,
        m@ == matrix_of(output, hint)->Ok_0,
        0 <= r < m.rows,
        0 <= c < m.cols,
    ensures
        m.cols == hint,
        m.wf(),
        m.at(r, c) == output.data->F32_0@[r * hint + c],
        output.shape@.len() == 3 ==> m.rows == output.shape@[1] && m.cols == output.shape@[2],
        output.shape@.len() == 2 ==> m.rows == output.shape@[0] && m.cols == output.shape@[1],
        output.shape@.len() == 1 ==> m.rows * hint == output.data->F32_0@.len(),
{
    assert(0 <= r * hint && r * hint + c < m.rows * hint) by (nonlinear_arith)
        requires
            0 <= r < m.rows,
            0 <= c < hint,
    ;
    assert(m@.0 == m.rows && m@.1 == m.cols && m@.2 == m.data@);
    if output.shape@.len() == 1 {
        vstd::arithmetic::div_mod::lemma_fundamental_div_mod(output.values().len() as int, hint);
        let (q, n) = (output.values().len() as int / hint, output.values().len() as int);
        assert(hint * q == q * hint) by (nonlinear_arith);
    }
}

/// An output that is looked for by its name and its last dimension is the first whose name has
/// one of the parts in it, in whatever case; only where no name has one, it is the first with
/// that last dimension; and there is none only where no output has either.
pub proof fn outputs_are_found_by_name_first(outputs: Seq<TensorOutput>, parts: Seq<Seq<char>>, last_dim: int, j: int)
    requires
        last_dim > 0,
        0 <= j < outputs.len(),
    ensures
        ({
            let named = |k: int|
                exists|n: int| 0 <= n < parts.len() && occurs_in(#[trigger] parts[n], lowercase_text(outputs[k].name@));
            let fits = |k: int|
                outputs[k].shape@.len() > 0 && outputs[k].shape@[outputs[k].shape@.len() - 1] == last_dim;
            match found_output(outputs, parts, last_dim) {
                Ok(i) => {
                    &&& 0 <= i < outputs.len()
                    &&& named(i) || fits(i)
                    &&& named(j) ==> named(i) && i <= j
                    &&& fits(j) && !named(i) ==> i <= j
                },
                Err(_) => !named(j) && !fits(j),
            }
        }),
{
    lemma_found(outputs, parts, last_dim);
    assert(is_named(outputs[j], parts) == exists|n: int|
        0 <= n < parts.len() && occurs_in(#[trigger] parts[n], lowercase_text(outputs[j].name@)));
}

/// There is an output that is looked for where one has a fitting name or last dimension.
proof fn lemma_found(outputs: Seq<TensorOutput>, parts: Seq<Seq<char>>, last_dim: int)
    ensures
        (exists|i: int| is_found(outputs, parts, last_dim, i)) <==> exists|j: int|
            0 <= j < outputs.len() && (is_named(#[trigger] outputs[j], parts) || ends_with(outputs[j], last_dim)),
{
    if exists|j: int| 0 <= j < outputs.len() && is_named(#[trigger] outputs[j], parts) {
        let j = choose|j: int| 0 <= j < outputs.len() && is_named(#[trigger] outputs[j], parts);
        let i = lemma_first(outputs, |o: TensorOutput| is_named(o, parts), j);
        assert(is_found(outputs, parts, last_dim, i));
    } else if exists|j: int| 0 <= j < outputs.len() && ends_with(#[trigger] outputs[j], last_dim) {
        let j = choose|j: int| 0 <= j < outputs.len() && ends_with(#[trigger] outputs[j], last_dim);
        let i = lemma_first(outputs, |o: TensorOutput| ends_with(o, last_dim), j);
        assert(is_found(outputs, parts, last_dim, i));
    }
}

proof fn lemma_first(outputs: Seq<TensorOutput>, fits: spec_fn(TensorOutput) -> bool, j: int) -> (i: int)
    requires
        0 <= j < outputs.len(),
        fits(outputs[j]),
    ensures
        0 <= i <= j,
        fits(outputs[i]),
        forall|k: int| 0 <= k < i ==> !fits(#[trigger] outputs[k]),
    decreases j,
{
    if exists|k: int| 0 <= k < j && fits(#[trigger] outputs[k]) {
        let k = choose|k: int| 0 <= k < j && fits(#[trigger] outputs[k]);
        lemma_first(outputs, fits, k)
    } else {
        j
    }
}

/// The candidates of a model that has chosen among its boxes itself are its rows whose fifth
/// value is not below the threshold, as far as the first six values of a row are there, in
/// order. The first four values are left, top, right and bottom.
pub proof fn rows_of_chosen_boxes_are_candidates(boxes: Seq<RawBox>, output: TensorOutput, threshold: Single) -> (at:
    Seq<int>)
    requires
        output.wf(),
        output.data is F32,
        output.shape@.len() == 3,
        100 <= output.shape@[1] <= 400,
        4 <= output.shape@[2] <= 100,
        are_raw_boxes(boxes, output, threshold),
    ensures
        ({
            let (values, rows, cols) = (output.data->F32_0@, output.shape@[1] as int, output.shape@[2] as int);
            &&& at.len() == boxes.len()
            &&& forall|k: int|
                0 <= k < at.len() ==> {
                    &&& 0 <= #[trigger] at[k] < rows
                    &&& at[k] * cols + 5 < values.len()
                    &&& !threshold.greater(values[at[k] * cols + 4])
                    &&& boxes[k].score == values[at[k] * cols + 4]
                    &&& boxes[k].coords@ == values.subrange(at[k] * cols, at[k] * cols + 4)
                    &&& !boxes[k].centered
                }
            &&& forall|i: int, j: int| 0 <= i < j < at.len() ==> #[trigger] at[i] < #[trigger] at[j]
            &&& forall|i: int|
                0 <= i < rows && i * cols + 5 < values.len() && !threshold.greater(
                    #[trigger] values[i * cols + 4],
                ) ==> at.contains(i)
        }),
{
    let (values, rows, cols) = (output.data->F32_0@, output.shape@[1] as int, output.shape@[2] as int);
    let scores = row_scores(values, rows, cols);
    let at = passing(scores, threshold);
    assert forall|k: int| 0 <= k < at.len() implies {
        &&& 0 <= #[trigger] at[k] < rows
        &&& at[k] * cols + 5 < values.len()
        &&& !threshold.greater(values[at[k] * cols + 4])
        &&& boxes[k].score == values[at[k] * cols + 4]
        &&& boxes[k].coords@ == values.subrange(at[k] * cols, at[k] * cols + 4)
        &&& !boxes[k].centered
    } by {
        let i = at[k];
        assert(at.contains(i));
        passing_is_exact(scores, threshold, i);
        lemma_full_row(values.len() as int, rows, cols, i);
        assert(is_row_box(boxes[k], values, cols, i));
        assert(0 <= i * cols) by (nonlinear_arith)
            requires
                0 <= i,
                0 <= cols,
        ;
        assert(boxes[k].coords@ =~= values.subrange(i * cols, i * cols + 4));
    }
    assert forall|i: int, j: int| 0 <= i < j < at.len() implies #[trigger] at[i] < #[trigger] at[j] by {
        passing_positions_ascend(scores, threshold, i, j);
    }
    assert forall|i: int|
        0 <= i < rows && i * cols + 5 < values.len() && !threshold.greater(
            #[trigger] values[i * cols + 4],
        ) implies at.contains(i) by {
        lemma_full_row(values.len() as int, rows, cols, i);
        passing_is_exact(scores, threshold, i);
        assert(scores[i] == values[i * cols + 4]);
    }
    at
}

/// The score of a column is zero or one of its class scores, and no class score is greater.
proof fn lemma_class_score(flat: Seq<Single>, anchors: int, i: int, channels: int)
    requires
        channels >= 4,
    ensures
        ({
            let s = class_score(flat, anchors, i, channels);
            &&& !s.not_a_number()
            &&& s.bits == SINGLE_ZERO || exists|c: int| 4 <= c < channels && s == #[trigger] flat[c * anchors + i]
            &&& !(Single { bits: SINGLE_ZERO }).greater(s)
            &&& forall|c: int| 4 <= c < channels ==> !(#[trigger] flat[c * anchors + i]).greater(s)
        }),
    decreases channels,
{
    if channels > 4 {
        lemma_class_score(flat, anchors, i, channels - 1);
        let before = class_score(flat, anchors, i, channels - 1);
        let s = class_score(flat, anchors, i, channels);
        let own = flat[(channels - 1) * anchors + i];
        assert forall|c: int| 4 <= c < channels implies !(#[trigger] flat[c * anchors + i]).greater(s) by {
            if c < channels - 1 {
                assert(!flat[c * anchors + i].greater(before));
            }
        }
        if s != own && s.bits != SINGLE_ZERO {
            let c = choose|c: int| 4 <= c < channels - 1 && before == #[trigger] flat[c * anchors + i];
            assert(s == flat[c * anchors + i]);
        }
    }
}

/// The candidates of a model that has not chosen among its boxes are its columns whose greatest
/// class score is not below the threshold, in order. The values of a column stand one behind the
/// other, as far apart as there are columns: the column and the row of the centre, the width and
/// the height, and then one score for each class.
pub proof fn columns_of_the_grid_are_candidates(boxes: Seq<RawBox>, output: TensorOutput, threshold: Single) -> (at:
    Seq<int>)
    requires
        output.wf(),
        output.data is F32,
        output.shape@.len() == 2 || output.shape@.len() == 3 && !(100 <= output.shape@[1] <= 400 && 4
            <= output.shape@[2] <= 100),
        yolo_complaint(output) is None,
        are_raw_boxes(boxes, output, threshold),
    ensures
        ({
            let (values, n) = (output.data->F32_0@, output.shape@.len() as int);
            let (channels, anchors) = (output.shape@[n - 2] as int, output.shape@[n - 1] as int);
            &&& channels >= 5
            &&& at.len() == boxes.len()
            &&& forall|k: int|
                0 <= k < at.len() ==> {
                    &&& 0 <= #[trigger] at[k] < anchors
                    &&& boxes[k].centered
                    &&& boxes[k].coords@[0] == values[at[k]]
                    &&& boxes[k].coords@[1] == values[anchors + at[k]]
                    &&& boxes[k].coords@[2] == values[2 * anchors + at[k]]
                    &&& boxes[k].coords@[3] == values[3 * anchors + at[k]]
                    &&& !threshold.greater(boxes[k].score)
                    &&& boxes[k].score.bits == SINGLE_ZERO || exists|c: int|
                        4 <= c < channels && boxes[k].score == #[trigger] values[c * anchors + at[k]]
                    &&& forall|c: int|
                        4 <= c < channels ==> !(#[trigger] values[c * anchors + at[k]]).greater(boxes[k].score)
                }
            &&& forall|i: int, j: int| 0 <= i < j < at.len() ==> #[trigger] at[i] < #[trigger] at[j]
            &&& forall|i: int, c: int|
                0 <= i < anchors && 4 <= c < channels && !threshold.not_a_number() && !(#[trigger] values[c * anchors
                    + i]).not_a_number() && !threshold.greater(values[c * anchors + i]) ==> at.contains(i)
        }),
{
    let (values, n) = (output.data->F32_0@, output.shape@.len() as int);
    let (channels, anchors) = (output.shape@[n - 2] as int, output.shape@[n - 1] as int);
    assert(grid_size(output) == Some((channels, anchors)));
    let scores = column_scores(values, channels, anchors);
    let at = passing(scores, threshold);
    assert forall|k: int| 0 <= k < at.len() implies {
        &&& 0 <= #[trigger] at[k] < anchors
        &&& boxes[k].centered
        &&& boxes[k].coords@[0] == values[at[k]]
        &&& boxes[k].coords@[1] == values[anchors + at[k]]
        &&& boxes[k].coords@[2] == values[2 * anchors + at[k]]
        &&& boxes[k].coords@[3] == values[3 * anchors + at[k]]
        &&& !threshold.greater(boxes[k].score)
        &&& boxes[k].score.bits == SINGLE_ZERO || exists|c: int|
            4 <= c < channels && boxes[k].score == #[trigger] values[c * anchors + at[k]]
        &&& forall|c: int| 4 <= c < channels ==> !(#[trigger] values[c * anchors + at[k]]).greater(boxes[k].score)
    } by {
        let i = at[k];
        assert(at.contains(i));
        passing_is_exact(scores, threshold, i);
        lemma_class_score(values, anchors, i, channels);
        assert(is_column_box(boxes[k], values, channels, anchors, i));
        assert(scores[i] == boxes[k].score);
        assert(0 * anchors == 0 && 1 * anchors == anchors) by (nonlinear_arith);
        assert(boxes[k].coords@[0] == values[0 * anchors + i]);
        assert(boxes[k].coords@[1] == values[1 * anchors + i]);
        assert(boxes[k].coords@[2] == values[2 * anchors + i]);
        assert(boxes[k].coords@[3] == values[3 * anchors + i]);
    }
    assert forall|i: int, j: int| 0 <= i < j < at.len() implies #[trigger] at[i] < #[trigger] at[j] by {
        passing_positions_ascend(scores, threshold, i, j);
    }
    assert forall|i: int, c: int|
        0 <= i < anchors && 4 <= c < channels && !threshold.not_a_number() && !(#[trigger] values[c * anchors
            + i]).not_a_number() && !threshold.greater(values[c * anchors + i]) implies at.contains(i) by {
        lemma_class_score(values, anchors, i, channels);
        assert(!values[c * anchors + i].greater(scores[i]));
        passing_is_exact(scores, threshold, i);
    }
    at
}

/// The output that is read by the grid-based detector has at least as many elements as any
/// other, and more than any after it.
pub proof fn largest_output_is_read(
    r: Result<Vec<RawBox>, VisionError>,
    outputs: Seq<TensorOutput>,
    threshold: Single,
) -> (i: int)
    requires
        is_yolo_reading(r, outputs, threshold),
        outputs.len() > 0,
        forall|j: int| 0 <= j < outputs.len() ==> (#[trigger] outputs[j]).data is F32,
    ensures
        0 <= i < outputs.len(),
        forall|j: int|
            0 <= j < outputs.len() ==> (#[trigger] outputs[j]).data->F32_0@.len() <= outputs[i].data->F32_0@.len(),
        forall|j: int|
            i < j < outputs.len() ==> (#[trigger] outputs[j]).data->F32_0@.len() < outputs[i].data->F32_0@.len(),
        r is Ok ==> are_raw_boxes(r->Ok_0@, outputs[i], threshold),
{
    let i = choose|i: int| #[trigger]
        is_largest(outputs, i) && if yolo_complaint(outputs[i]) is Some {
            fails(r, ErrorKind::Inference, yolo_complaint(outputs[i])->0)
        } else {
            r is Ok && are_raw_boxes(r->Ok_0@, outputs[i], threshold)
        };
    i
}

/// The offsets are read from the first output with "loc" in its name, the confidences from the
/// first one with "conf" or "scores", and the corners from the first one with "landm" or
/// "keypoints"; capital letters count as small ones.
pub proof fn anchor_outputs_are_found_by_their_names(outputs: Seq<TensorOutput>, m: MnetOutputs, j: int) -> (r: (
    int,
    int,
    int,
))
    requires
        forall|i: int| 0 <= i < outputs.len() ==> (#[trigger] outputs[i]).wf(),
        mnet_complaint(outputs) is None,
        m.is_read_from(outputs),
        0 <= j < outputs.len(),
    ensures
        ({
            let (loc, conf, landms) = r;
            let has = |k: int, part: &str| occurs_in(part@, lowercase_text(outputs[k].name@));
            &&& 0 <= loc < outputs.len() && 0 <= conf < outputs.len() && 0 <= landms < outputs.len()
            &&& has(j, "loc") ==> has(loc, "loc") && loc <= j
            &&& has(j, "conf") || has(j, "scores") ==> (has(conf, "conf") || has(conf, "scores")) && conf <= j
            &&& has(j, "landm") || has(j, "keypoints") ==> (has(landms, "landm") || has(landms, "keypoints") || has(
                landms,
                "landms",
            )) && landms <= j
            &&& forall|i: int, k: int|
                0 <= i < m.loc.rows && 0 <= k < 4 ==> #[trigger] m.loc.at(i, k) == outputs[loc].data->F32_0@[i * 4 + k]
            &&& forall|i: int, k: int|
                0 <= i < m.conf.rows && 0 <= k < 2 ==> #[trigger] m.conf.at(i, k) == outputs[conf].data->F32_0@[i * 2
                    + k]
            &&& forall|i: int, k: int|
                0 <= i < m.landms.rows && 0 <= k < 8 ==> #[trigger] m.landms.at(i, k)
                    == outputs[landms].data->F32_0@[i * 8 + k]
        }),
{
    let loc = found_output(outputs, loc_names(), 4)->Ok_0;
    let conf = found_output(outputs, conf_names(), 2)->Ok_0;
    let landms = found_output(outputs, landms_names(), 8)->Ok_0;
    outputs_are_found_by_name_first(outputs, loc_names(), 4, j);
    outputs_are_found_by_name_first(outputs, conf_names(), 2, j);
    outputs_are_found_by_name_first(outputs, landms_names(), 8, j);
    assert(loc_names()[0] == "loc"@);
    assert(conf_names()[0] == "conf"@ && conf_names()[1] == "scores"@);
    assert(landms_names()[0] == "landms"@ && landms_names()[1] == "landm"@ && landms_names()[2] == "keypoints"@);
    assert forall|i: int, k: int| 0 <= i < m.loc.rows && 0 <= k < 4 implies #[trigger] m.loc.at(i, k)
        == outputs[loc].data->F32_0@[i * 4 + k] by {
        matrices_are_read_row_by_row(m.loc, outputs[loc], 4, i, k);
    }
    assert forall|i: int, k: int| 0 <= i < m.conf.rows && 0 <= k < 2 implies #[trigger] m.conf.at(i, k)
        == outputs[conf].data->F32_0@[i * 2 + k] by {
        matrices_are_read_row_by_row(m.conf, outputs[conf], 2, i, k);
    }
    assert forall|i: int, k: int| 0 <= i < m.landms.rows && 0 <= k < 8 implies #[trigger] m.landms.at(i, k)
        == outputs[landms].data->F32_0@[i * 8 + k] by {
        matrices_are_read_row_by_row(m.landms, outputs[landms], 8, i, k);
    }
    (loc, conf, landms)
}

} // verus!
