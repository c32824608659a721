//! Thumbnail derivation. The embedded-preview strategy decodes a preview
//! byte buffer, scales it to fit a fixed bound, and re-encodes it as JPEG —
//! the pixel work is the image crate's, behind the trusted item below, and
//! what it yields is a function of the bytes and the bound alone. The
//! external-development strategy is the caller's process invocation; this
//! module builds its exact argument list and decides what counts as its
//! success. Either way the output name is a fresh token inside the output
//! directory, so a superseded thumbnail is never overwritten. A superseded
//! thumbnail file is deliberately left on disk: deleting it could break a
//! reference elsewhere, and fresh names mean it can never be confused with
//! the current one.

use vstd::prelude::*;

verus! {

/// The bound of an embedded-preview thumbnail's edges.
pub const PREVIEW_BOUND: u32 = 1000;

/// Why no thumbnail came out of a derivation.
#[derive(Clone, Copy, PartialEq, Eq, Structural, Debug)]
pub enum DerivationError {
    /// The preview bytes decode as no known image format.
    DecodeFailed,
    /// The scaled image could not be encoded as JPEG.
    EncodeFailed,
    /// The external development tool exited with a failure.
    ToolFailed,
    /// The external development tool exited cleanly but its output file is
    /// not there.
    OutputMissing,
}

/// What the embedded-preview pixel chain yields for given preview bytes and
/// bound: the scaled JPEG bytes with their dimensions, or the stage that
/// refuses. Decoding, scaling, and encoding each read their inputs alone,
/// so the whole outcome is a function of the bytes and the bound.
pub uninterp spec fn thumb_jpeg_of(preview: Seq<u8>, bound: u32) -> Result<
    (Seq<u8>, u32, u32),
    DerivationError,
>;

/// Relies on image::load_from_memory (format guessed from the content),
/// DynamicImage::thumbnail (the scaled dimensions fit within the bound on
/// both edges and are never zero, aspect ratio kept by its rounding),
/// to_rgb8, and DynamicImage::write_to with the JPEG format. None of these
/// reads anything but its arguments, so the outcome is `thumb_jpeg_of` of
/// the inputs.
#[verifier::external_body]
fn scaled_jpeg(preview: &Vec<u8>, bound: u32) -> (r: Result<(Vec<u8>, u32, u32), DerivationError>)
    requires
        1 <= bound,
    ensures
        r is Ok <==> thumb_jpeg_of(preview@, bound) is Ok,
        r is Ok ==> (r->Ok_0.0@, r->Ok_0.1, r->Ok_0.2) == thumb_jpeg_of(preview@, bound)->Ok_0,
        r is Err ==> r->Err_0 == thumb_jpeg_of(preview@, bound)->Err_0,
        r is Ok ==> 1 <= r->Ok_0.1 <= bound && 1 <= r->Ok_0.2 <= bound,
{
    let img = match image::load_from_memory(preview) {
        Ok(i) => i,
        Err(_) => return Err(DerivationError::DecodeFailed),
    };
    let scaled = img.thumbnail(bound, bound);
    let (w, h) = (scaled.width(), scaled.height());
    let rgb = image::DynamicImage::ImageRgb8(scaled.to_rgb8());
    let mut buf: Vec<u8> = Vec::new();
    match rgb.write_to(&mut std::io::Cursor::new(&mut buf), image::ImageFormat::Jpeg) {
        Ok(()) => Ok((buf, w, h)),
        Err(_) => Err(DerivationError::EncodeFailed),
    }
}

/// Relies on uuid::Uuid::new_v4 and its hyphenated form: a random token of
/// 36 characters, hexadecimal digits and hyphens, so never a path separator.
#[verifier::external_body]
fn fresh_token() -> (r: String)
    ensures
        r@.len() == 36,
        forall|i: int| 0 <= i < r@.len() ==> r@[i] != '/',
{
    uuid::Uuid::new_v4().hyphenated().to_string()
}

/// The file a derivation writes: the token under the output directory, with
/// a JPEG extension.
pub open spec fn spec_thumb_file(dir: Seq<char>, token: Seq<char>) -> Seq<char> {
    dir + "/"@ + token + ".jpg"@
}

pub fn thumb_file_path(dir: &str, token: &str) -> (r: String)
    ensures
        r@ == spec_thumb_file(dir@, token@),
{
    let s = dir.to_owned();
    let s = s.concat("/");
    let s = s.concat(token);
    s.concat(".jpg")
}

/// A token fit for a thumbnail file name: fresh, fixed-length, and free of
/// path separators.
pub open spec fn token_shaped(token: Seq<char>) -> bool {
    token.len() == 36 && forall|i: int| 0 <= i < token.len() ==> token[i] != '/'
}

/// A derived thumbnail: where it belongs, the encoded bytes to put there,
/// and their dimensions.
#[derive(Debug)]
pub struct DerivedThumb {
    pub file_name: String,
    pub jpeg: Vec<u8>,
    pub width: u32,
    pub height: u32,
}

/// The embedded-preview strategy on bytes already unpacked from the raw
/// file: decode, scale to fit the preview bound on both edges, encode as
/// JPEG, and name the output after a fresh token inside the output
/// directory. Succeeds exactly when the pixel chain does, with its bytes
/// and dimensions; the caller writes the bytes to the named file.
pub fn derive_thumbnail_from_preview(preview: &Vec<u8>, thumb_dir: &str) -> (r: Result<
    DerivedThumb,
    DerivationError,
>)
    ensures
        r is Ok <==> thumb_jpeg_of(preview@, PREVIEW_BOUND) is Ok,
        match r {
            Result::Ok(t) => {
                let g = thumb_jpeg_of(preview@, PREVIEW_BOUND)->Ok_0;
                &&& t.jpeg@ == g.0
                &&& t.width == g.1
                &&& t.height == g.2
                &&& 1 <= t.width <= PREVIEW_BOUND
                &&& 1 <= t.height <= PREVIEW_BOUND
                &&& exists|token: Seq<char>|
                    #[trigger] token_shaped(token) && t.file_name@ == spec_thumb_file(
                        thumb_dir@,
                        token,
                    )
            },
            Result::Err(e) => e == thumb_jpeg_of(preview@, PREVIEW_BOUND)->Err_0,
        },
{
    let (jpeg, width, height) = match scaled_jpeg(preview, PREVIEW_BOUND) {
        Ok(t) => t,
        Err(e) => {
            return Err(e);
        },
    };
    let token = fresh_token();
    let file_name = thumb_file_path(thumb_dir, token.as_str());
    proof {
        assert(token_shaped(token@));
    }
    Ok(DerivedThumb { file_name, jpeg, width, height })
}

/// The argument list of one external-development invocation, in order: the
/// raw file, its sidecar, the output file, then the width and height bounds
/// as separate tokens.
pub open spec fn spec_develop_args(raw_path: Seq<char>, out_file: Seq<char>) -> Seq<Seq<char>> {
    seq![
        raw_path,
        crate::pipeline::spec_sidecar_path(raw_path),
        out_file,
        "--width"@,
        "640"@,
        "--height"@,
        "640"@,
    ]
}

/// Build the external tool's arguments for one derivation. The caller runs
/// the tool under its configured command name with exactly these arguments
/// and judges the run with `develop_outcome`.
pub fn develop_args(raw_path: &str, out_file: &str) -> (r: Vec<String>)
    ensures
        r.deep_view() == spec_develop_args(raw_path@, out_file@),
{
    let mut r: Vec<String> = Vec::new();
    r.push(raw_path.to_owned());
    r.push(crate::pipeline::sidecar_path_for(raw_path));
    r.push(out_file.to_owned());
    r.push(String::from_str("--width"));
    r.push(String::from_str("640"));
    r.push(String::from_str("--height"));
    r.push(String::from_str("640"));
    proof {
        assert(r.deep_view() =~= spec_develop_args(raw_path@, out_file@));
    }
    r
}

/// What one external-development run amounts to: a derivation succeeded
/// exactly when the tool exited cleanly and its output file is present; a
/// failed exit is the reported cause even when output is also missing.
pub fn develop_outcome(exit_ok: bool, output_present: bool) -> (r: Result<(), DerivationError>)
    ensures
        r is Ok <==> exit_ok && output_present,
        !exit_ok ==> r == Result::<(), DerivationError>::Err(DerivationError::ToolFailed),
        exit_ok && !output_present ==> r == Result::<(), DerivationError>::Err(
            DerivationError::OutputMissing,
        ),
{
    if !exit_ok {
        Err(DerivationError::ToolFailed)
    } else if !output_present {
        Err(DerivationError::OutputMissing)
    } else {
        Ok(())
    }
}

/// Name a fresh output file for one external-development run.
pub fn develop_target(thumb_dir: &str) -> (r: String)
    ensures
        exists|token: Seq<char>|
            #[trigger] token_shaped(token) && r@ == spec_thumb_file(thumb_dir@, token),
{
    let token = fresh_token();
    let r = thumb_file_path(thumb_dir, token.as_str());
    proof {
        assert(token_shaped(token@));
    }
    r
}

} // verus!
