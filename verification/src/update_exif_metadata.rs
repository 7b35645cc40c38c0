//! The metadata writer: pairs photos with exposure records by position,
//! builds the exact argument set of each tagging invocation, and interprets
//! each invocation's outcome, halting at the first failure.
//!
//! Process creation itself is platform work that stays outside the library;
//! the library hands out the planned invocations in order and is told each
//! exit status and captured output.

use vstd::prelude::*;

verus! {

use crate::numbers::{comp_2dp, format_comp_2dp, format_i32, int_text};
use crate::read_metadata::ExposureInfo;
use crate::text::views_of;
use vstd::utf8::{decode_utf8, valid_utf8};

#[derive(Debug)]
pub enum Error {
    /// The photo count and the exposure count disagree.
    BadInformation,
    ExiftoolSpawn { path: String, message: String },
    ExiftoolWait { message: String },
    ExiftoolExe { stderr: String },
    Path { message: String },
}

/// What one tagging invocation works on.
pub struct ExifArgs<'a> {
    pub file: &'a String,
    pub exposure: &'a ExposureInfo,
    pub model: &'a String,
    pub maker: &'a String,
}

/// The exact argument sequence of one tagging invocation: every date tag,
/// the aperture twice, the focal length three times suffixed `mm`, the
/// shutter speed twice, ISO, lens, maker and model, the compensation to two
/// decimals only when logged, and the file last.
pub open spec fn exif_args_of(
    e: ExposureInfo,
    file: Seq<char>,
    model: Seq<char>,
    maker: Seq<char>,
) -> Seq<Seq<char>> {
    seq![
        "-AllDates="@ + e.date@,
        "-fnumber="@ + e.aperture@,
        "-aperturevalue="@ + e.aperture@,
        "-FocalLength="@ + e.focal_length@ + "mm"@,
        "-Lens="@ + e.focal_length@ + "mm"@,
        "-FocalLengthIn35mmFormat="@ + e.focal_length@ + "mm"@,
        "-ShutterSpeedValue="@ + e.shutter_speed@,
        "-ExposureTime="@ + e.shutter_speed@,
        "-iso="@ + int_text(e.iso as int),
        "-LensModel="@ + e.lens_name@,
        "-Make="@ + maker,
        "-Model="@ + model,
    ] + (match e.exposure_compensation {
        Some(c) => seq!["-ExposureCompensation="@ + comp_2dp(c@)],
        None => Seq::<Seq<char>>::empty(),
    }) + seq![file]
}

/// Joins a tag prefix and its value.
fn tag_arg(prefix: &str, value: &str) -> (r: String)
    ensures
        r@ == prefix@ + value@,
{
    let mut s = String::new();
    s.append(prefix);
    s.append(value);
    s
}

/// Joins a tag prefix, its value, and the `mm` unit suffix.
fn tag_arg_mm(prefix: &str, value: &str) -> (r: String)
    ensures
        r@ == prefix@ + value@ + "mm"@,
{
    let mut s = String::new();
    s.append(prefix);
    s.append(value);
    s.append("mm");
    s
}

/// Builds the argument list of one invocation, exactly as specified by
/// `exif_args_of`.
#[verifier::rlimit(60)]
pub fn exiftool_args(args: &ExifArgs<'_>) -> (r: Vec<String>)
    requires
        args.exposure.wf(),
    ensures
        views_of(r@) == exif_args_of(*args.exposure, args.file@, args.model@, args.maker@),
{
    let e = args.exposure;
    let mut v: Vec<String> = Vec::new();
    v.push(tag_arg("-AllDates=", e.date.as_str()));
    v.push(tag_arg("-fnumber=", e.aperture.as_str()));
    v.push(tag_arg("-aperturevalue=", e.aperture.as_str()));
    v.push(tag_arg_mm("-FocalLength=", e.focal_length.as_str()));
    v.push(tag_arg_mm("-Lens=", e.focal_length.as_str()));
    v.push(tag_arg_mm("-FocalLengthIn35mmFormat=", e.focal_length.as_str()));
    v.push(tag_arg("-ShutterSpeedValue=", e.shutter_speed.as_str()));
    v.push(tag_arg("-ExposureTime=", e.shutter_speed.as_str()));
    let iso = format_i32(e.iso);
    v.push(tag_arg("-iso=", iso.as_str()));
    v.push(tag_arg("-LensModel=", e.lens_name.as_str()));
    v.push(tag_arg("-Make=", args.maker.as_str()));
    v.push(tag_arg("-Model=", args.model.as_str()));
    if let Some(c) = &e.exposure_compensation {
        let two = format_comp_2dp(c.as_str());
        v.push(tag_arg("-ExposureCompensation=", two.as_str()));
    }
    v.push(args.file.clone());
    proof {
        assert(views_of(v@) =~= exif_args_of(*args.exposure, args.file@, args.model@, args.maker@));
    }
    v
}

/// One writing run: the planned invocations in pair order, how far the run
/// has come, and whether it has halted on a failure.
pub struct WriterRun {
    /// The argument list of each pair's invocation, in order.
    pub plan: Vec<Vec<String>>,
    /// The first pair not yet dispatched.
    pub next: usize,
    /// Set at the first failure; nothing is dispatched after it.
    pub halted: bool,
}

impl WriterRun {
    pub open spec fn wf(self) -> bool {
        self.next <= self.plan@.len()
    }

    /// Which invocation is owed next, if any.
    pub open spec fn next_invocation_spec(self) -> Option<Seq<Seq<char>>> {
        if !self.halted && self.next < self.plan@.len() {
            Some(self.plan@[self.next as int].deep_view())
        } else {
            None
        }
    }

    /// The arguments of the next pair to write, or nothing when the run is
    /// done or has halted.
    pub fn next_invocation(&self) -> (r: Option<&Vec<String>>)
        ensures
            r is Some <==> self.next_invocation_spec() is Some,
            r matches Some(a) ==> a.deep_view() == self.next_invocation_spec()->0,
    {
        if !self.halted && self.next < self.plan.len() {
            Some(&self.plan[self.next])
        } else {
            None
        }
    }

    /// Records the outcome of the dispatched invocation: on success the
    /// run advances; on a non-zero exit, or standard output that does not
    /// decode as text, it halts with the failure's detail.
    pub fn record_outcome(&mut self, status_success: bool, stdout: &Vec<u8>, stderr: &Vec<u8>) -> (r:
        Result<String, Error>)
        requires
            old(self).wf(),
            old(self).next_invocation_spec() is Some,
        ensures
            final(self).wf(),
            final(self).plan == old(self).plan,
            r is Ok <==> status_success && valid_utf8(stdout@),
            r matches Ok(s) ==> s@ == decode_utf8(stdout@),
            r is Ok ==> final(self).next == old(self).next + 1 && !final(self).halted,
            r is Err ==> final(self).halted && final(self).next == old(self).next,
            !status_success ==> (r matches Err(err) && err matches Error::ExiftoolExe { stderr: t }
                && t@ == lossy_text_of(stderr@)),
            status_success && !valid_utf8(stdout@) ==> (r matches Err(err)
                && err is ExiftoolWait),
    {
        let res = interpret_exiftool_output(status_success, stdout, stderr);
        match res {
            Ok(out) => {
                let bound = self.plan.len();
                assert(self.next < bound);
                self.next = self.next + 1;
                Ok(out)
            },
            Err(err) => {
                self.halted = true;
                Err(err)
            },
        }
    }
}

/// A halted run dispatches nothing further.
pub proof fn lemma_halt_stops_dispatch(run: WriterRun)
    requires
        run.halted,
    ensures
        run.next_invocation_spec() is None,
{
}

/// What lossy text decoding yields on given bytes.
pub uninterp spec fn lossy_text_of(b: Seq<u8>) -> Seq<char>;

/// Relies on String::from_utf8: decodes exactly the byte sequences that
/// form valid UTF-8, to the characters they encode.
#[verifier::external_body]
fn utf8_to_string(b: &Vec<u8>) -> (r: Option<String>)
    ensures
        r is Some <==> valid_utf8(b@),
        r matches Some(s) ==> s@ == decode_utf8(b@),
{
    String::from_utf8(b.clone()).ok()
}

/// Relies on String::from_utf8_lossy: the result depends on the bytes
/// alone, and valid UTF-8 decodes exactly.
#[verifier::external_body]
fn lossy_to_string(b: &Vec<u8>) -> (r: String)
    ensures
        r@ == lossy_text_of(b@),
        valid_utf8(b@) ==> r@ == decode_utf8(b@),
{
    String::from_utf8_lossy(b.as_slice()).to_string()
}

/// Interprets one invocation's outcome.  Success is a successful exit
/// status with standard output that decodes as text; on a non-zero exit
/// the captured standard error is the failure detail, decoded lossily so
/// that diagnostic text never itself aborts the run.
pub fn interpret_exiftool_output(status_success: bool, stdout: &Vec<u8>, stderr: &Vec<u8>) -> (r:
    Result<String, Error>)
    ensures
        r is Ok <==> status_success && valid_utf8(stdout@),
        r matches Ok(s) ==> s@ == decode_utf8(stdout@),
        !status_success ==> (r matches Err(err) && err matches Error::ExiftoolExe { stderr: t }
            && t@ == lossy_text_of(stderr@)),
        status_success && !valid_utf8(stdout@) ==> (r matches Err(err) && err is ExiftoolWait),
{
    if !status_success {
        let detail = lossy_to_string(stderr);
        return Err(Error::ExiftoolExe { stderr: detail });
    }
    match utf8_to_string(stdout) {
        Some(out) => Ok(out),
        None => {
            let mut m = String::new();
            m.append("the utility's standard output is not valid text");
            Err(Error::ExiftoolWait { message: m })
        },
    }
}

/// Verifies the positional alignment and plans the writing run: with
/// matching counts, pair `i` is written with photo `i` and exposure record
/// `i`; with differing counts nothing is planned at all.
#[verifier::loop_isolation(false)]
pub fn update_exif_metadata(
    files: Vec<String>,
    exposures: Vec<ExposureInfo>,
    model: &str,
    maker: &str,
) -> (r: Result<WriterRun, Error>)
    requires
        forall|i: int| 0 <= i < exposures@.len() ==> (#[trigger] exposures@[i]).wf(),
    ensures
        r is Err <==> files@.len() != exposures@.len(),
        r matches Err(err) ==> err is BadInformation,
        r matches Ok(run) ==> {
            &&& run.plan@.len() == files@.len()
            &&& forall|i: int| 0 <= i < files@.len() ==> (#[trigger] run.plan@[i]).deep_view()
                == exif_args_of(exposures@[i], files@[i]@, model@, maker@)
            &&& run.next == 0
            &&& !run.halted
            &&& run.wf()
        },
{
    if files.len() != exposures.len() {
        return Err(Error::BadInformation);
    }
    let model_s = model.to_owned();
    let maker_s = maker.to_owned();
    let mut plan: Vec<Vec<String>> = Vec::new();
    let mut i: usize = 0;
    while i < files.len()
        invariant
            0 <= i <= files@.len(),
            plan@.len() == i,
            forall|k: int| 0 <= k < i ==> (#[trigger] plan@[k]).deep_view() == exif_args_of(
                exposures@[k],
                files@[k]@,
                model@,
                maker@,
            ),
        decreases files@.len() - i,
    {
        let a = ExifArgs {
            file: &files[i],
            exposure: &exposures[i],
            model: &model_s,
            maker: &maker_s,
        };
        let one = exiftool_args(&a);
        proof {
            assert(one.deep_view() =~= views_of(one@));
        }
        plan.push(one);
        i = i + 1;
    }
    Ok(WriterRun { plan, next: 0, halted: false })
}

} // verus!
